//! The measurement store: one file per model (footprints stacked, keyed by param-hash)
//! plus a box-level file. Kept per box, never beside the weights, and pruned only on
//! request. This is what the files hold and what may be read out of them; reading and
//! writing them is the frontend's.

use indexmap::IndexMap;
use vstd::prelude::*;
use vstd::string::*;

use crate::model::{name_of_type, text_view, ModelRecord, ModelType, RecordView};
use crate::number::{digits, law_digits_are_read_back, law_numbers_are_read, parse_u64, unsigned};
use crate::tables::lookup;
use crate::text::{
    chars_of, ends, ends_with, is_digit, law_a_text_is_cut_at_every_separator,
    law_a_text_without_separators_is_one_piece, lemma_views_push, pieces, same, split_on,
    text_between, views,
};

verus! {

/// The reserved box-level file name in a store.
pub const BOX_FILE: &'static str = "_box.json";

/// The version stamped into the store on every write, so that a later build knows which
/// schema wrote it.
pub const WRITER_VERSION: &'static str = "0.1.0";

// ---- versions -----------------------------------------------------------------------------

/// What stands before the first `-` or `+`.
pub open spec fn version_core(version: Seq<char>) -> Seq<char>
    decreases version.len(),
{
    if version.len() == 0 {
        version
    } else if version[0] == '-' || version[0] == '+' {
        Seq::empty()
    } else {
        seq![version[0]] + version_core(version.skip(1))
    }
}

/// The numeric part at `index`, or zero where there is none that can be read.
pub open spec fn version_part(parts: Seq<Seq<char>>, index: int) -> nat {
    if index < parts.len() {
        match unsigned(parts[index], u64::MAX as nat) {
            Some(n) => n,
            None => 0,
        }
    } else {
        0
    }
}

/// Major, minor and patch of a version, without any `-pre` or `+build` suffix.
pub open spec fn version_numbers(version: Seq<char>) -> (nat, nat, nat) {
    let parts = pieces(version_core(version), '.');
    (version_part(parts, 0), version_part(parts, 1), version_part(parts, 2))
}

/// The first triple comes after the second.
pub open spec fn after(a: (nat, nat, nat), b: (nat, nat, nat)) -> bool {
    a.0 > b.0 || (a.0 == b.0 && (a.1 > b.1 || (a.1 == b.1 && a.2 > b.2)))
}

fn core_of(version: &str) -> (core: String)
    ensures
        core@ == version_core(version@),
{
    let chars = chars_of(version);
    let mut end: usize = 0;
    let ghost all = version@;
    proof {
        assert(all.skip(0) =~= all);
        assert(all.take(0) + version_core(all) =~= version_core(all));
    }
    while end < chars.len() && chars[end] != '-' && chars[end] != '+'
        invariant
            end <= chars@.len(),
            chars@ == all,
            all.take(end as int) + version_core(all.skip(end as int)) == version_core(all),
        decreases chars@.len() - end,
    {
        proof {
            let rest = all.skip(end as int);
            assert(rest[0] == all[end as int]);
            assert(rest.skip(1) =~= all.skip(end + 1));
            assert(all.take(end + 1) + version_core(rest.skip(1)) =~= all.take(end as int) + (seq![
                rest[0],
            ] + version_core(rest.skip(1))));
        }
        end = end + 1;
    }
    proof {
        assert(all.take(end as int) + version_core(all.skip(end as int)) =~= all.take(end as int));
        assert(all.take(end as int) =~= all.subrange(0, end as int));
    }
    text_between(chars.as_slice(), 0, end)
}

fn part_of(parts: &Vec<String>, index: usize) -> (n: u64)
    ensures
        n == version_part(views(parts@), index as int),
{
    if index < parts.len() {
        proof {
            assert(views(parts@)[index as int] == parts@[index as int]@);
        }
        match parse_u64(parts[index].as_str()) {
            Some(n) => n,
            None => 0,
        }
    } else {
        0
    }
}

/// Numeric `(major, minor, patch)` of a version. Parts that cannot be read are zero, so a
/// version that cannot be read is never newer than another.
pub fn version_triple(version: &str) -> (r: (u64, u64, u64))
    ensures
        (r.0 as nat, r.1 as nat, r.2 as nat) == version_numbers(version@),
{
    let parts = split_on(core_of(version).as_str(), '.');
    (part_of(&parts, 0), part_of(&parts, 1), part_of(&parts, 2))
}

/// Is `candidate` a strictly newer version than `running`? By number, so `1.10.0` is newer
/// than `1.9.0`.
pub fn version_is_newer(candidate: &str, running: &str) -> (r: bool)
    ensures
        r == after(version_numbers(candidate@), version_numbers(running@)),
{
    let a = version_triple(candidate);
    let b = version_triple(running);
    a.0 > b.0 || (a.0 == b.0 && (a.1 > b.1 || (a.1 == b.1 && a.2 > b.2)))
}

/// Being newer is a strict order.
pub proof fn law_newer_is_a_strict_order(a: Seq<char>, b: Seq<char>, c: Seq<char>)
    ensures
        !after(version_numbers(a), version_numbers(a)),
        after(version_numbers(a), version_numbers(b)) ==> !after(
            version_numbers(b),
            version_numbers(a),
        ),
        after(version_numbers(a), version_numbers(b)) && after(
            version_numbers(b),
            version_numbers(c),
        ) ==> after(version_numbers(a), version_numbers(c)),
{
}

/// The stamp that a write leaves: the writer's own version, unless the store already
/// carries a newer one.
pub open spec fn stamp_over(previous: Option<Seq<char>>, writer: Seq<char>) -> Seq<char> {
    match previous {
        Some(version) => if after(version_numbers(version), version_numbers(writer)) {
            version
        } else {
            writer
        },
        None => writer,
    }
}

/// The version to stamp into a store last stamped with `previous`.
pub fn stamp(previous: Option<&String>, writer: &str) -> (r: String)
    ensures
        r@ == stamp_over(
            match previous {
                Some(version) => Some(version@),
                None => None,
            },
            writer@,
        ),
{
    match previous {
        Some(version) => if version_is_newer(version.as_str(), writer) {
            version.clone()
        } else {
            writer.to_owned()
        },
        None => writer.to_owned(),
    }
}

/// A stamp only ever goes up: it is older neither than the last one nor than its writer.
pub proof fn law_stamps_never_go_down(previous: Seq<char>, writer: Seq<char>)
    ensures
        !after(version_numbers(previous), version_numbers(stamp_over(Some(previous), writer))),
        !after(version_numbers(writer), version_numbers(stamp_over(Some(previous), writer))),
{
}

// ---- measurements -------------------------------------------------------------------------

/// One measured footprint, keyed in a model's file by its param-hash. Amounts are in units
/// (see `number`). An optional amount is absent where it was not measured, so a recorded
/// zero always is a measured zero.
#[derive(Debug)]
pub struct Measurement {
    /// `ok` or `FAILED`.
    pub status: String,
    pub d_total: i64,
    pub d_vram: Option<i64>,
    pub d_gtt: Option<i64>,
    pub abs_total: i64,
    pub abs_vram: Option<i64>,
    pub abs_gtt: Option<i64>,
    /// How long the load took, in tenths of a second.
    pub load_tenths: u64,
    /// Did the load-trigger complete and occupancy settle, so that the number describes a
    /// finished allocation? Unknown counts as no.
    pub allocation_confirmed: Option<bool>,
    /// Was llama-swap seen to serve the command that was hashed?
    pub serving_verified: Option<bool>,
    /// Highest occupancy seen while allocating, over the same baseline as `d_total`.
    pub peak_total: Option<i64>,
    /// Size of the weight files the command names, as far as they could be read.
    pub weights_gb: Option<i64>,
    /// The empty-pool occupancy this delta was taken against.
    pub pool_baseline: Option<i64>,
    /// Host memory this model added when it loaded: a floor, as its prompt cache fills
    /// only with use.
    pub d_host: Option<i64>,
    /// Was anything else in the pool during the measurement? Such a footprint can only be
    /// too high.
    pub contended: Option<bool>,
    /// The hashed command, readable.
    pub params: String,
    pub measured_at: String,
}

/// What a measurement says.
#[verifier::ext_equal]
pub struct ReadingView {
    pub status: Seq<char>,
    pub d_total: i64,
    pub d_vram: Option<i64>,
    pub d_gtt: Option<i64>,
    pub abs_total: i64,
    pub abs_vram: Option<i64>,
    pub abs_gtt: Option<i64>,
    pub load_tenths: u64,
    pub allocation_confirmed: Option<bool>,
    pub serving_verified: Option<bool>,
    pub peak_total: Option<i64>,
    pub weights_gb: Option<i64>,
    pub pool_baseline: Option<i64>,
    pub d_host: Option<i64>,
    pub contended: Option<bool>,
    pub params: Seq<char>,
    pub measured_at: Seq<char>,
}

impl View for Measurement {
    type V = ReadingView;

    open spec fn view(&self) -> ReadingView {
        ReadingView {
            status: self.status@,
            d_total: self.d_total,
            d_vram: self.d_vram,
            d_gtt: self.d_gtt,
            abs_total: self.abs_total,
            abs_vram: self.abs_vram,
            abs_gtt: self.abs_gtt,
            load_tenths: self.load_tenths,
            allocation_confirmed: self.allocation_confirmed,
            serving_verified: self.serving_verified,
            peak_total: self.peak_total,
            weights_gb: self.weights_gb,
            pool_baseline: self.pool_baseline,
            d_host: self.d_host,
            contended: self.contended,
            params: self.params@,
            measured_at: self.measured_at@,
        }
    }
}

/// A measurement that says nothing.
pub open spec fn blank_reading() -> ReadingView {
    ReadingView {
        status: Seq::empty(),
        d_total: 0,
        d_vram: None,
        d_gtt: None,
        abs_total: 0,
        abs_vram: None,
        abs_gtt: None,
        load_tenths: 0,
        allocation_confirmed: None,
        serving_verified: None,
        peak_total: None,
        weights_gb: None,
        pool_baseline: None,
        d_host: None,
        contended: None,
        params: Seq::empty(),
        measured_at: Seq::empty(),
    }
}

impl Default for Measurement {
    fn default() -> (r: Self)
        ensures
            r@ == blank_reading(),
    {
        Measurement {
            status: String::new(),
            d_total: 0,
            d_vram: None,
            d_gtt: None,
            abs_total: 0,
            abs_vram: None,
            abs_gtt: None,
            load_tenths: 0,
            allocation_confirmed: None,
            serving_verified: None,
            peak_total: None,
            weights_gb: None,
            pool_baseline: None,
            d_host: None,
            contended: None,
            params: String::new(),
            measured_at: String::new(),
        }
    }
}

impl Clone for Measurement {
    fn clone(&self) -> (r: Self)
        ensures
            r@ == self@,
    {
        Measurement {
            status: self.status.clone(),
            d_total: self.d_total,
            d_vram: self.d_vram,
            d_gtt: self.d_gtt,
            abs_total: self.abs_total,
            abs_vram: self.abs_vram,
            abs_gtt: self.abs_gtt,
            load_tenths: self.load_tenths,
            allocation_confirmed: self.allocation_confirmed,
            serving_verified: self.serving_verified,
            peak_total: self.peak_total,
            weights_gb: self.weights_gb,
            pool_baseline: self.pool_baseline,
            d_host: self.d_host,
            contended: self.contended,
            params: self.params.clone(),
            measured_at: self.measured_at.clone(),
        }
    }
}

/// A number was recorded.
pub open spec fn reading_ok(reading: ReadingView) -> bool {
    reading.status == "ok"@
}

/// A number was recorded, and the allocation it describes is known to have finished.
pub open spec fn reading_confirmed(reading: ReadingView) -> bool {
    reading_ok(reading) && reading.allocation_confirmed == Some(true)
}

/// The footprint as a fraction of the weights on disk, where both are known.
pub open spec fn footprint_over_weights(reading: ReadingView) -> Option<(i64, i64)> {
    match reading.weights_gb {
        Some(weights) => if weights > 0 {
            Some((reading.d_total, weights))
        } else {
            None
        },
        None => None,
    }
}

/// The footprint is below nine tenths of the weights on disk, which is implausible for a
/// fully offloaded model.
pub open spec fn under_weights(reading: ReadingView) -> bool {
    match footprint_over_weights(reading) {
        Some((footprint, weights)) => footprint * 10 < weights * 9,
        None => false,
    }
}

impl Measurement {
    pub fn is_ok(&self) -> (r: bool)
        ensures
            r == reading_ok(self@),
    {
        same(self.status.as_str(), "ok")
    }

    /// Is this footprint fit for the knapsack: measured, and known to be complete? An entry
    /// that is `ok` but unconfirmed may be a mid-load plateau, which under-counts.
    pub fn is_confirmed(&self) -> (r: bool)
        ensures
            r == reading_confirmed(self@),
    {
        self.is_ok() && match self.allocation_confirmed {
            Some(confirmed) => confirmed,
            None => false,
        }
    }

    /// The footprint as a fraction of the weights on disk (numerator and denominator), when
    /// both are known.
    pub fn weight_ratio(&self) -> (r: Option<(i64, i64)>)
        ensures
            r == footprint_over_weights(self@),
    {
        match self.weights_gb {
            Some(weights) => if weights > 0 {
                Some((self.d_total, weights))
            } else {
                None
            },
            None => None,
        }
    }

    /// Is the footprint implausibly small for the weights the command loads? A signal
    /// and no more: partial offload is a legitimate reason to sit lower.
    pub fn below_weight_floor(&self) -> (r: bool)
        ensures
            r == under_weights(self@),
    {
        match self.weight_ratio() {
            Some((footprint, weights)) => (footprint as i128) * 10 < (weights as i128) * 9,
            None => false,
        }
    }
}

/// An unpopulated pool split reads as unknown: a model that holds something cannot hold
/// nothing in both pools, so two zeros beside a total were never a reading.
pub open spec fn known_split(reading: ReadingView) -> ReadingView {
    let delta = reading.d_total > 0 && reading.d_vram == Some(0i64) && reading.d_gtt == Some(0i64);
    let absolute = reading.abs_total > 0 && reading.abs_vram == Some(0i64) && reading.abs_gtt
        == Some(0i64);
    ReadingView {
        d_vram: if delta {
            None
        } else {
            reading.d_vram
        },
        d_gtt: if delta {
            None
        } else {
            reading.d_gtt
        },
        abs_vram: if absolute {
            None
        } else {
            reading.abs_vram
        },
        abs_gtt: if absolute {
            None
        } else {
            reading.abs_gtt
        },
        ..reading
    }
}

fn is_zero(amount: Option<i64>) -> (r: bool)
    ensures
        r == (amount == Some(0i64)),
{
    match amount {
        Some(a) => a == 0,
        None => false,
    }
}

fn with_known_split(reading: &Measurement) -> (r: Measurement)
    ensures
        r@ == known_split(reading@),
{
    let mut r = reading.clone();
    if r.d_total > 0 && is_zero(r.d_vram) && is_zero(r.d_gtt) {
        r.d_vram = None;
        r.d_gtt = None;
    }
    if r.abs_total > 0 && is_zero(r.abs_vram) && is_zero(r.abs_gtt) {
        r.abs_vram = None;
        r.abs_gtt = None;
    }
    r
}

// ---- a model's file -----------------------------------------------------------------------

/// The entries of a table of measurements, in order.
pub uninterp spec fn reading_table(map: IndexMap<String, Measurement>) -> Seq<
    (Seq<char>, ReadingView),
>;

/// `IndexMap::new` makes a table without entries.
#[verifier::external_body]
fn new_reading_table() -> (map: IndexMap<String, Measurement>)
    ensures
        reading_table(map) == Seq::<(Seq<char>, ReadingView)>::empty(),
{
    IndexMap::new()
}

/// `IndexMap::get` finds the value stored under a key equal to `key`. Keys are distinct,
/// so it is the first, and only, entry with that key.
#[verifier::external_body]
fn reading_under<'a>(map: &'a IndexMap<String, Measurement>, key: &str) -> (value: Option<
    &'a Measurement,
>)
    ensures
        match value {
            Some(found) => lookup(reading_table(*map), key@) == Some(found@),
            None => lookup(reading_table(*map), key@) is None,
        },
{
    map.get(key)
}

/// `IndexMap::get_index` hands out the entry at a position in insertion order, and
/// nothing past the last one. A map holds at most `usize::MAX` entries, with distinct keys.
#[verifier::external_body]
fn reading_entry(map: &IndexMap<String, Measurement>, index: usize) -> (entry: Option<
    (&String, &Measurement),
>)
    ensures
        match entry {
            Some((key, value)) => {
                &&& index < reading_table(*map).len() <= usize::MAX
                &&& reading_table(*map)[index as int] == (key@, value@)
                &&& distinct_keys(reading_table(*map))
            },
            None => index >= reading_table(*map).len(),
        },
{
    map.get_index(index)
}

/// `IndexMap::insert` replaces the value under an equal key in place, and else adds the
/// entry at the end.
#[verifier::external_body]
fn put_reading(map: &mut IndexMap<String, Measurement>, key: String, value: Measurement)
    ensures
        reading_table(*final(map)) == table_with(reading_table(*old(map)), key@, value@),
{
    map.insert(key, value);
}

/// A table with `value` stored under `key`: in place of the entry with that key, or at the
/// end where there is none.
pub open spec fn table_with<V>(table: Seq<(Seq<char>, V)>, key: Seq<char>, value: V) -> Seq<
    (Seq<char>, V),
>
    decreases table.len(),
{
    if table.len() == 0 {
        seq![(key, value)]
    } else if table[0].0 == key {
        seq![(key, value)] + table.skip(1)
    } else {
        seq![table[0]] + table_with(table.skip(1), key, value)
    }
}

/// What is stored under a key is read back under it, and other keys read as before.
pub proof fn law_stored_entries_read_back<V>(
    table: Seq<(Seq<char>, V)>,
    key: Seq<char>,
    value: V,
    other: Seq<char>,
)
    ensures
        lookup(table_with(table, key, value), key) == Some(value),
        other != key ==> lookup(table_with(table, key, value), other) == lookup(table, other),
    decreases table.len(),
{
    let after = table_with(table, key, value);
    if table.len() == 0 {
        assert(after.skip(1) =~= table);
    } else if table[0].0 == key {
        assert(after.skip(1) =~= table.skip(1));
    } else {
        law_stored_entries_read_back(table.skip(1), key, value, other);
        assert(after.skip(1) =~= table_with(table.skip(1), key, value));
    }
}

/// One model's file: its type, weight file, and measurements by param-hash.
#[derive(Debug)]
pub struct ModelStore {
    pub model_type: String,
    pub file: Option<String>,
    pub measurements: IndexMap<String, Measurement>,
}

/// What a model's file says.
#[verifier::ext_equal]
pub struct StoreView {
    pub model_type: Seq<char>,
    pub file: Option<Seq<char>>,
    pub measurements: Seq<(Seq<char>, ReadingView)>,
}

impl View for ModelStore {
    type V = StoreView;

    open spec fn view(&self) -> StoreView {
        StoreView {
            model_type: self.model_type@,
            file: text_view(self.file),
            measurements: reading_table(self.measurements),
        }
    }
}

/// A table of measurements with every unpopulated split read as unknown.
pub open spec fn known_splits(table: Seq<(Seq<char>, ReadingView)>) -> Seq<
    (Seq<char>, ReadingView),
> {
    Seq::new(table.len(), |i: int| (table[i].0, known_split(table[i].1)))
}

/// The entries of a table that carry a footprint.
pub open spec fn ok_entries(table: Seq<(Seq<char>, ReadingView)>) -> Seq<ReadingView>
    decreases table.len(),
{
    if table.len() == 0 {
        Seq::empty()
    } else if reading_ok(table.last().1) {
        ok_entries(table.drop_last()).push(table.last().1)
    } else {
        ok_entries(table.drop_last())
    }
}

/// The footprint that a model's file holds for a param-hash.
///
/// A hash miss is a miss: an entry under another hash was measured under other memory
/// flags. The one exception is a proxy, which is never measured: its footprint is set by
/// hand under a key of the operator's choosing, and found if it is the only one.
pub open spec fn selected(store: StoreView, hash: Seq<char>) -> Option<ReadingView> {
    match lookup(store.measurements, hash) {
        Some(reading) => if reading_ok(reading) {
            Some(reading)
        } else {
            None
        },
        None => if store.model_type == name_of_type(ModelType::TtsProxy) && ok_entries(
            store.measurements,
        ).len() == 1 {
            Some(ok_entries(store.measurements)[0])
        } else {
            None
        },
    }
}

/// What an optional measurement stands for.
pub open spec fn reading_view(reading: Option<Measurement>) -> Option<ReadingView> {
    match reading {
        Some(r) => Some(r@),
        None => None,
    }
}

impl ModelStore {
    /// Is this a proxy's file, whose footprint is set by hand?
    pub fn is_hand_set_proxy(&self) -> (r: bool)
        ensures
            r == (self@.model_type == name_of_type(ModelType::TtsProxy)),
    {
        same(self.model_type.as_str(), ModelType::TtsProxy.as_str())
    }

    /// Read every unpopulated pool split as unknown.
    pub fn normalize_pool_split(&mut self)
        ensures
            final(self)@ == (StoreView {
                measurements: known_splits(old(self)@.measurements),
                ..old(self)@
            }),
    {
        let ghost before = self@.measurements;
        let mut table = new_reading_table();
        let mut index: usize = 0;
        proof {
            assert(reading_table(table) =~= known_splits(before).take(0));
        }
        loop
            invariant_except_break
                *self == *old(self),
                before == self@.measurements,
                index <= before.len(),
                reading_table(table) == known_splits(before).take(index as int),
            ensures
                *self == *old(self),
                reading_table(table) == known_splits(before),
            decreases before.len() - index,
        {
            match reading_entry(&self.measurements, index) {
                Some((key, reading)) => {
                    let known = with_known_split(reading);
                    proof {
                        let done = known_splits(before).take(index as int);
                        assert forall|i: int| 0 <= i < done.len() implies #[trigger] done[i].0
                            != key@ by {
                            assert(before[i].0 != before[index as int].0);
                        }
                        lemma_table_with_new(done, key@, known@);
                        assert(known_splits(before).take(index + 1) =~= done.push(
                            (key@, known@),
                        ));
                    }
                    put_reading(&mut table, key.clone(), known);
                    index = index + 1;
                },
                None => {
                    proof {
                        assert(known_splits(before).take(index as int) =~= known_splits(before));
                    }
                    break ;
                },
            }
        }
        self.measurements = table;
    }
}

/// No two entries share a key.
pub open spec fn distinct_keys<V>(table: Seq<(Seq<char>, V)>) -> bool {
    forall|i: int, j: int|
        0 <= i < j < table.len() ==> (#[trigger] table[i]).0 != (#[trigger] table[j]).0
}

proof fn lemma_table_with_new<V>(table: Seq<(Seq<char>, V)>, key: Seq<char>, value: V)
    requires
        forall|i: int| 0 <= i < table.len() ==> (#[trigger] table[i]).0 != key,
    ensures
        table_with(table, key, value) == table.push((key, value)),
    decreases table.len(),
{
    if table.len() > 0 {
        assert(table[0].0 != key);
        assert forall|i: int| 0 <= i < table.skip(1).len() implies (#[trigger] table.skip(1)[i]).0
            != key by {
            assert(table.skip(1)[i] == table[i + 1]);
        }
        lemma_table_with_new(table.skip(1), key, value);
    }
    assert(table_with(table, key, value) =~= table.push((key, value)));
}

/// The only entry of a table that carries a footprint, if exactly one does.
fn only_ok(store: &ModelStore) -> (r: Option<Measurement>)
    ensures
        reading_view(r) == (if ok_entries(store@.measurements).len() == 1 {
            Some(ok_entries(store@.measurements)[0])
        } else {
            None
        }),
{
    let ghost table = store@.measurements;
    let mut found: Option<Measurement> = None;
    let mut many = false;
    let mut index: usize = 0;
    loop
        invariant
            table == store@.measurements,
            index <= table.len(),
            ({
                let entries = ok_entries(table.take(index as int));
                &&& many == (entries.len() > 1)
                &&& !many ==> reading_view(found) == (if entries.len() == 1 {
                    Some(entries[0])
                } else {
                    None
                })
            }),
        decreases table.len() - index,
    {
        match reading_entry(&store.measurements, index) {
            Some((_, reading)) => {
                proof {
                    assert(table.take(index + 1).drop_last() =~= table.take(index as int));
                    assert(table.take(index + 1).last() == table[index as int]);
                }
                if reading.is_ok() {
                    if found.is_some() {
                        many = true;
                    } else if !many {
                        found = Some(reading.clone());
                    }
                }
                index = index + 1;
            },
            None => {
                proof {
                    assert(table.take(index as int) =~= table);
                }
                if many {
                    return None;
                }
                return found;
            },
        }
    }
}

impl ModelStore {
    /// The `ok` measurement for a param-hash, or `None` (see [`selected`]). Whether an
    /// unconfirmed one will do is the caller's decision.
    pub fn select(&self, param_hash: &str) -> (r: Option<Measurement>)
        ensures
            reading_view(r) == selected(self@, param_hash@),
    {
        if let Some(reading) = reading_under(&self.measurements, param_hash) {
            if reading.is_ok() {
                return Some(reading.clone());
            }
            return None;
        }
        if self.is_hand_set_proxy() {
            return only_ok(self);
        }
        None
    }

    /// A file for a model that has none yet.
    pub fn empty(record: &ModelRecord) -> (r: Self)
        ensures
            r@ == (StoreView {
                model_type: name_of_type(record.model_type),
                file: record@.primary_file,
                measurements: Seq::empty(),
            }),
    {
        ModelStore {
            model_type: record.model_type.as_str().to_owned(),
            file: copied_text(&record.primary_file),
            measurements: new_reading_table(),
        }
    }

    /// The measurement filed under a param-hash, whatever its status.
    pub fn filed(&self, param_hash: &str) -> (r: Option<&Measurement>)
        ensures
            match r {
                Some(reading) => lookup(self@.measurements, param_hash@) == Some(reading@),
                None => lookup(self@.measurements, param_hash@) is None,
            },
    {
        reading_under(&self.measurements, param_hash)
    }

    /// File a measurement under a record's param-hash, refreshing the type and weight file
    /// that the entry is filed with.
    pub fn file(&mut self, record: &ModelRecord, measurement: Measurement)
        ensures
            final(self)@ == (StoreView {
                model_type: name_of_type(record.model_type),
                file: record@.primary_file,
                measurements: table_with(
                    old(self)@.measurements,
                    record@.param_hash,
                    measurement@,
                ),
            }),
    {
        self.model_type = record.model_type.as_str().to_owned();
        self.file = copied_text(&record.primary_file);
        put_reading(&mut self.measurements, record.param_hash.clone(), measurement);
    }
}

pub(crate) fn copied_text(text: &Option<String>) -> (r: Option<String>)
    ensures
        text_view(r) == text_view(*text),
{
    match text {
        Some(t) => Some(t.clone()),
        None => None,
    }
}

proof fn lemma_ok_entries(table: Seq<(Seq<char>, ReadingView)>)
    ensures
        forall|i: int|
            0 <= i < ok_entries(table).len() ==> reading_ok(#[trigger] ok_entries(table)[i]),
    decreases table.len(),
{
    if table.len() > 0 {
        let before = ok_entries(table.drop_last());
        lemma_ok_entries(table.drop_last());
        assert forall|i: int| 0 <= i < ok_entries(table).len() implies reading_ok(
            #[trigger] ok_entries(table)[i],
        ) by {
            if i < before.len() {
                assert(ok_entries(table)[i] == before[i]);
            }
        }
    }
}

/// Selection never guesses: what it returns was recorded successfully, and for anything
/// but a hand-set proxy it was recorded under the very hash that was asked for.
pub proof fn law_selection_never_guesses(store: StoreView, hash: Seq<char>)
    ensures
        selected(store, hash) is Some ==> reading_ok(selected(store, hash)->0),
        selected(store, hash) is Some && store.model_type != name_of_type(ModelType::TtsProxy)
            ==> lookup(store.measurements, hash) == selected(store, hash),
        lookup(store.measurements, hash) is Some && !reading_ok(
            lookup(store.measurements, hash)->0,
        ) ==> selected(store, hash) is None,
{
    lemma_ok_entries(store.measurements);
}

// ---- the box ------------------------------------------------------------------------------

/// A co-residency reading and what was predicted of it.
#[derive(Debug)]
pub struct AdditivityCheck {
    pub combo: Vec<String>,
    pub predicted: i64,
    pub measured: i64,
    pub error: i64,
}

/// What a co-residency reading says.
#[verifier::ext_equal]
pub struct AdditivityView {
    pub combo: Seq<Seq<char>>,
    pub predicted: i64,
    pub measured: i64,
    pub error: i64,
}

impl View for AdditivityCheck {
    type V = AdditivityView;

    open spec fn view(&self) -> AdditivityView {
        AdditivityView {
            combo: views(self.combo@),
            predicted: self.predicted,
            measured: self.measured,
            error: self.error,
        }
    }
}

/// Box-level values that have no per-model home. Amounts are in units.
#[derive(Debug)]
pub struct BoxMeta {
    /// What the empty pool holds.
    pub baseline: i64,
    /// The pool's physical total at sweep time.
    pub detected_total: Option<i64>,
    /// The host's memory, where the box can report it.
    pub host_total: Option<i64>,
    /// What the host holds with no model loaded.
    pub host_baseline: Option<i64>,
    /// Last sweep date.
    pub date: Option<String>,
    pub additivity_check: Option<AdditivityCheck>,
    /// The version that last wrote this store.
    pub written_by: Option<String>,
}

/// What the box-level values say.
#[verifier::ext_equal]
pub struct BoxView {
    pub baseline: i64,
    pub detected_total: Option<i64>,
    pub host_total: Option<i64>,
    pub host_baseline: Option<i64>,
    pub date: Option<Seq<char>>,
    pub additivity_check: Option<AdditivityView>,
    pub written_by: Option<Seq<char>>,
}

impl View for BoxMeta {
    type V = BoxView;

    open spec fn view(&self) -> BoxView {
        BoxView {
            baseline: self.baseline,
            detected_total: self.detected_total,
            host_total: self.host_total,
            host_baseline: self.host_baseline,
            date: text_view(self.date),
            additivity_check: match self.additivity_check {
                Some(check) => Some(check@),
                None => None,
            },
            written_by: text_view(self.written_by),
        }
    }
}

/// A box of which nothing is known yet.
pub open spec fn blank_box() -> BoxView {
    BoxView {
        baseline: 0,
        detected_total: None,
        host_total: None,
        host_baseline: None,
        date: None,
        additivity_check: None,
        written_by: None,
    }
}

impl Default for BoxMeta {
    fn default() -> (r: Self)
        ensures
            r@ == blank_box(),
    {
        BoxMeta {
            baseline: 0,
            detected_total: None,
            host_total: None,
            host_baseline: None,
            date: None,
            additivity_check: None,
            written_by: None,
        }
    }
}

impl BoxMeta {
    /// The box-level values as they are written over a store last stamped with `previous`.
    pub fn stamped(self, previous: Option<&String>) -> (r: BoxMeta)
        ensures
            r@ == (BoxView {
                written_by: Some(
                    stamp_over(
                        match previous {
                            Some(version) => Some(version@),
                            None => None,
                        },
                        WRITER_VERSION@,
                    ),
                ),
                ..self@
            }),
    {
        let mut r = self;
        r.written_by = Some(stamp(previous, WRITER_VERSION));
        r
    }
}

// ---- the store's files ----------------------------------------------------------------------

/// An id as a file name: only path separators are a problem.
pub open spec fn safe_file(id: Seq<char>) -> Seq<char> {
    id.map_values(|c: char| if c == '/' || c == '\\' { '_' } else { c })
}

/// Make an id safe as a file name.
pub fn file_safe(id: &str) -> (name: String)
    ensures
        name@ == safe_file(id@),
{
    let chars = chars_of(id);
    let mut name = String::new();
    let mut at: usize = 0;
    while at < chars.len()
        invariant
            at <= chars@.len(),
            chars@ == id@,
            name@ == safe_file(id@.take(at as int)),
        decreases chars@.len() - at,
    {
        let c = chars[at];
        let safe = if c == '/' || c == '\\' {
            '_'
        } else {
            c
        };
        name.push(safe);
        at = at + 1;
        proof {
            assert(safe_file(id@.take(at as int)) =~= safe_file(id@.take(at - 1)).push(safe));
        }
    }
    proof {
        assert(id@.take(at as int) =~= id@);
    }
    name
}

/// A handle to a store's directory.
pub struct Store {
    pub dir: String,
}

/// A file in a directory.
pub open spec fn file_in(dir: Seq<char>, name: Seq<char>) -> Seq<char> {
    if dir.len() == 0 || dir.last() == '/' {
        dir + name
    } else {
        dir + "/"@ + name
    }
}

pub(crate) fn joined_path(dir: &str, name: &str) -> (path: String)
    ensures
        path@ == file_in(dir@, name@),
{
    if dir.is_empty() || ends_with(dir, "/") {
        proof {
            reveal_strlit("/");
            if dir@.len() > 0 {
                assert(dir@.subrange(dir@.len() - 1, dir@.len() as int)[0] == "/"@[0]);
            }
        }
        dir.to_owned().concat(name)
    } else {
        proof {
            reveal_strlit("/");
            if dir@.last() == '/' {
                assert(dir@.subrange(dir@.len() - 1, dir@.len() as int) =~= "/"@);
            }
        }
        dir.to_owned().concat("/").concat(name)
    }
}

impl Store {
    pub fn new(dir: &str) -> (r: Self)
        ensures
            r.dir@ == dir@,
    {
        Store { dir: dir.to_owned() }
    }

    pub fn dir(&self) -> (r: &str)
        ensures
            r@ == self.dir@,
    {
        self.dir.as_str()
    }

    /// Where a model's file is.
    pub fn model_path(&self, id: &str) -> (path: String)
        ensures
            path@ == file_in(self.dir@, model_file(id@)),
    {
        joined_path(self.dir.as_str(), file_safe(id).concat(".json").as_str())
    }

    /// Where the box-level file is.
    pub fn box_path(&self) -> (path: String)
        ensures
            path@ == file_in(self.dir@, BOX_FILE@),
    {
        joined_path(self.dir.as_str(), BOX_FILE)
    }
}

/// `name` without the suffix, however often it stands at the end.
pub open spec fn without_suffix(name: Seq<char>, suffix: Seq<char>) -> Seq<char>
    decreases name.len(),
{
    if suffix.len() > 0 && ends(name, suffix) {
        without_suffix(name.take(name.len() - suffix.len()), suffix)
    } else {
        name
    }
}

fn trimmed(name: &str, suffix: &str) -> (r: String)
    ensures
        r@ == without_suffix(name@, suffix@),
    decreases name@.len(),
{
    let n = chars_of(name);
    let s = chars_of(suffix);
    if s.len() > 0 && ends_with(name, suffix) {
        let shorter = text_between(n.as_slice(), 0, n.len() - s.len());
        proof {
            assert(shorter@ =~= name@.take(name@.len() - suffix@.len()));
        }
        trimmed(shorter.as_str(), suffix)
    } else {
        name.to_owned()
    }
}

/// The ids that a directory's file names stand for: its JSON files but the box's.
pub open spec fn listed_ids(names: Seq<Seq<char>>) -> Seq<Seq<char>>
    decreases names.len(),
{
    if names.len() == 0 {
        Seq::empty()
    } else {
        let before = listed_ids(names.drop_last());
        if ends(names.last(), ".json"@) && names.last() != BOX_FILE@ {
            before.push(without_suffix(names.last(), ".json"@))
        } else {
            before
        }
    }
}

/// Model ids present in a store, by the names of its files.
pub fn ids_of_files(names: &Vec<String>) -> (ids: Vec<String>)
    ensures
        views(ids@) == listed_ids(views(names@)),
{
    let ghost all = views(names@);
    let mut ids: Vec<String> = Vec::new();
    let mut at: usize = 0;
    proof {
        assert(views(ids@) =~= listed_ids(all.take(0)));
    }
    while at < names.len()
        invariant
            at <= names@.len(),
            all == views(names@),
            views(ids@) == listed_ids(all.take(at as int)),
        decreases names@.len() - at,
    {
        let name = names[at].as_str();
        proof {
            assert(all.take(at + 1).drop_last() =~= all.take(at as int));
            assert(all.take(at + 1).last() == name@);
        }
        if ends_with(name, ".json") && !same(name, BOX_FILE) {
            let id = trimmed(name, ".json");
            proof {
                lemma_views_push(ids@, id);
            }
            ids.push(id);
        }
        at = at + 1;
    }
    proof {
        assert(all.take(at as int) =~= all);
    }
    ids
}

// ---- adopting a renamed model's footprint ---------------------------------------------------

/// What a list of named files stands for.
pub open spec fn file_views(files: Seq<(String, ModelStore)>) -> Seq<(Seq<char>, StoreView)> {
    Seq::new(files.len(), |i: int| (files[i].0@, files[i].1@))
}

/// The file belongs to no model that the config still names.
pub open spec fn orphaned(name: Seq<char>, live: Seq<Seq<char>>) -> bool {
    forall|i: int| 0 <= i < live.len() ==> safe_file(#[trigger] live[i]) != name
}

/// The first orphaned file with a confirmed footprint under this hash, and that footprint.
///
/// A rename is not a new footprint: an equal hash is an equal memory command. Only files
/// that no configured model owns are looked at, as adopting a live model's number would
/// stop measuring it.
pub open spec fn adopted_from(
    files: Seq<(Seq<char>, StoreView)>,
    live: Seq<Seq<char>>,
    hash: Seq<char>,
) -> Option<(Seq<char>, ReadingView)>
    decreases files.len(),
{
    if files.len() == 0 {
        None
    } else {
        let entry = lookup(files[0].1.measurements, hash);
        if orphaned(files[0].0, live) && entry is Some && reading_confirmed(entry->0) {
            Some((files[0].0, entry->0))
        } else {
            adopted_from(files.skip(1), live, hash)
        }
    }
}

fn is_orphaned(name: &str, live: &Vec<String>) -> (r: bool)
    ensures
        r == orphaned(name@, views(live@)),
{
    let ghost ids = views(live@);
    let mut at: usize = 0;
    while at < live.len()
        invariant
            at <= live@.len(),
            ids == views(live@),
            forall|i: int| 0 <= i < at ==> safe_file(#[trigger] ids[i]) != name@,
        decreases live@.len() - at,
    {
        proof {
            assert(ids[at as int] == live@[at as int]@);
        }
        if same(file_safe(live[at].as_str()).as_str(), name) {
            return false;
        }
        at = at + 1;
    }
    true
}

/// The footprint to adopt for a param-hash, and the name of the file it comes from.
pub fn adoptable(files: &Vec<(String, ModelStore)>, live: &Vec<String>, param_hash: &str) -> (r:
    Option<(String, Measurement)>)
    ensures
        match r {
            Some((from, reading)) => adopted_from(file_views(files@), views(live@), param_hash@)
                == Some((from@, reading@)),
            None => adopted_from(file_views(files@), views(live@), param_hash@) is None,
        },
{
    let ghost all = file_views(files@);
    let ghost ids = views(live@);
    let mut at: usize = 0;
    proof {
        assert(all.skip(0) =~= all);
    }
    while at < files.len()
        invariant
            at <= files@.len(),
            all == file_views(files@),
            ids == views(live@),
            adopted_from(all.skip(at as int), ids, param_hash@) == adopted_from(
                all,
                ids,
                param_hash@,
            ),
        decreases files@.len() - at,
    {
        let file = &files[at];
        proof {
            assert(all.skip(at as int)[0] == (file.0@, file.1@));
            assert(all.skip(at as int).skip(1) =~= all.skip(at + 1));
        }
        if is_orphaned(file.0.as_str(), live) {
            if let Some(reading) = file.1.filed(param_hash) {
                if reading.is_confirmed() {
                    return Some((file.0.clone(), reading.clone()));
                }
            }
        }
        at = at + 1;
    }
    None
}

/// A footprint is adopted only if it was confirmed, under the same hash, in a file that no
/// configured model owns.
pub proof fn law_adoption_is_sound(
    files: Seq<(Seq<char>, StoreView)>,
    live: Seq<Seq<char>>,
    hash: Seq<char>,
) -> (i: int)
    requires
        adopted_from(files, live, hash) is Some,
    ensures
        0 <= i < files.len(),
        files[i].0 == (adopted_from(files, live, hash)->0).0,
        orphaned(files[i].0, live),
        lookup(files[i].1.measurements, hash) == Some((adopted_from(files, live, hash)->0).1),
        reading_confirmed((adopted_from(files, live, hash)->0).1),
    decreases files.len(),
{
    let entry = lookup(files[0].1.measurements, hash);
    if orphaned(files[0].0, live) && entry is Some && reading_confirmed(entry->0) {
        0
    } else {
        law_adoption_is_sound(files.skip(1), live, hash) + 1
    }
}

// ---- what a model costs configured differently ------------------------------------------------

/// The `ok` readings of a file under other hashes that hold less than this: what each holds, and
/// the command it was taken with.
pub open spec fn cheaper(table: Seq<(Seq<char>, ReadingView)>, hash: Seq<char>, than: i64) -> Seq<
    (i64, Seq<char>),
>
    decreases table.len(),
{
    if table.len() == 0 {
        Seq::empty()
    } else {
        let before = cheaper(table.drop_last(), hash, than);
        let (key, reading) = table.last();
        if key != hash && reading_ok(reading) && reading.d_total < than {
            before.push((reading.d_total, reading.params))
        } else {
            before
        }
    }
}

/// What a list of readings says: what each holds, and its command.
pub open spec fn taken_views(list: Seq<(i64, String)>) -> Seq<(i64, Seq<char>)> {
    Seq::new(list.len(), |i: int| (list[i].0, list[i].1@))
}

impl ModelStore {
    /// The `ok` readings under other hashes that hold less than this.
    pub fn cheaper(&self, param_hash: &str, than: i64) -> (r: Vec<(i64, String)>)
        ensures
            taken_views(r@) == cheaper(self@.measurements, param_hash@, than),
    {
        let ghost table = self@.measurements;
        let mut r: Vec<(i64, String)> = Vec::new();
        let mut at: usize = 0;
        proof {
            assert(taken_views(r@) =~= cheaper(table.take(0), param_hash@, than));
        }
        loop
            invariant
                table == reading_table(self.measurements),
                at <= table.len(),
                taken_views(r@) == cheaper(table.take(at as int), param_hash@, than),
            ensures
                at == table.len(),
                taken_views(r@) == cheaper(table.take(at as int), param_hash@, than),
            decreases table.len() - at,
        {
            match reading_entry(&self.measurements, at) {
                Some((key, reading)) => {
                    proof {
                        assert(table.take(at + 1).drop_last() =~= table.take(at as int));
                        assert(table.take(at + 1).last() == (key@, reading@));
                    }
                    if !same(key.as_str(), param_hash) && reading.is_ok() && reading.d_total
                        < than {
                        let taken = (reading.d_total, reading.params.clone());
                        proof {
                            assert(taken_views(r@.push(taken)) =~= taken_views(r@).push(
                                (taken.0, taken.1@),
                            ));
                        }
                        r.push(taken);
                    }
                    at = at + 1;
                },
                None => {
                    break ;
                },
            }
        }
        proof {
            assert(table.take(at as int) =~= table);
        }
        r
    }
}

// ---- migrating a single-file store ------------------------------------------------------------

/// A model in a store that was kept in one file.
#[derive(Debug)]
pub struct LegacyModel {
    pub id: String,
    pub store: ModelStore,
    /// The one measurement of an entry that holds no table of them.
    pub flat: Option<Measurement>,
}

/// A store that was kept in one file: box-level values and every model's measurements.
#[derive(Debug)]
pub struct LegacyFile {
    pub baseline: i64,
    /// The budget there, which is the detected total here.
    pub budget: Option<i64>,
    pub date: Option<String>,
    pub models: Vec<LegacyModel>,
    pub additivity_check: Option<AdditivityCheck>,
}

/// The param-hash of a model's command in the config, where it is in there.
pub open spec fn current_hash(records: Seq<RecordView>, id: Seq<char>) -> Option<Seq<char>>
    decreases records.len(),
{
    if records.len() == 0 {
        None
    } else if records[0].id == id {
        Some(records[0].param_hash)
    } else {
        current_hash(records.skip(1), id)
    }
}

/// A model's measurements with the one of a flat entry filed under the model's current
/// param-hash. One that has a table already is no flat entry, and without a current command
/// there is nothing to file it under.
pub open spec fn rekeyed(model: LegacyModel, records: Seq<RecordView>) -> Seq<
    (Seq<char>, ReadingView),
> {
    let table = model.store@.measurements;
    match (model.flat, current_hash(records, model.id@)) {
        (Some(reading), Some(hash)) => if table.len() == 0 {
            seq![(hash, reading@)]
        } else {
            table
        },
        _ => table,
    }
}

/// What a model's file holds, once a single-file store is split.
pub open spec fn split_off(model: LegacyModel, records: Seq<RecordView>) -> (Seq<char>, StoreView) {
    (
        model.id@,
        StoreView { measurements: known_splits(rekeyed(model, records)), ..model.store@ },
    )
}

/// What the box file and each model's file hold, once a single-file store is split.
pub open spec fn split_up(legacy: LegacyFile, records: Seq<RecordView>) -> (
    BoxView,
    Seq<(Seq<char>, StoreView)>,
) {
    (
        BoxView {
            baseline: legacy.baseline,
            detected_total: legacy.budget,
            date: text_view(legacy.date),
            additivity_check: match legacy.additivity_check {
                Some(check) => Some(check@),
                None => None,
            },
            ..blank_box()
        },
        Seq::new(legacy.models@.len(), |i: int| split_off(legacy.models@[i], records)),
    )
}

/// What a migration writes into a store that lists these ids: nothing where it has models
/// already, or where there is no single-file store.
pub open spec fn migrated(
    ids: Seq<Seq<char>>,
    legacy: Option<LegacyFile>,
    records: Seq<RecordView>,
) -> Option<(BoxView, Seq<(Seq<char>, StoreView)>)> {
    match legacy {
        Some(file) => if ids.len() == 0 {
            Some(split_up(file, records))
        } else {
            None
        },
        None => None,
    }
}

impl Store {
    /// Take a single-file store over into this one, which lists `ids`: gives what the box file
    /// and each model's file are to hold. Nothing where the store has models already, or where
    /// there is no single-file store. `records` are the models of the config.
    pub fn migrate_legacy(
        &self,
        ids: &Vec<String>,
        legacy: Option<LegacyFile>,
        records: &Vec<ModelRecord>,
    ) -> (r: Option<(BoxMeta, Vec<(String, ModelStore)>)>)
        ensures
            match r {
                Some((meta, files)) => migrated(views(ids@), legacy, views(records@)) == Some(
                    (meta@, file_views(files@)),
                ),
                None => migrated(views(ids@), legacy, views(records@)) is None,
            },
    {
        match legacy {
            Some(file) => if ids.len() == 0 {
                Some(split(file, records))
            } else {
                None
            },
            None => None,
        }
    }
}

/// The name of a model's file.
pub open spec fn model_file(id: Seq<char>) -> Seq<char> {
    safe_file(id) + ".json"@
}

proof fn lemma_json_files_are_listed(names: Seq<Seq<char>>, name: Seq<char>)
    requires
        names.contains(name),
        ends(name, ".json"@),
        name != BOX_FILE@,
    ensures
        listed_ids(names).len() > 0,
    decreases names.len(),
{
    if names.last() != name {
        let i = choose|i: int| 0 <= i < names.len() && names[i] == name;
        assert(names.drop_last()[i] == name);
        lemma_json_files_are_listed(names.drop_last(), name);
    }
}

/// A migration is done once: with the file of a model that it wrote in the directory, another
/// writes nothing. (A model whose file would have the box's name is not listed.)
pub proof fn law_a_migration_is_done_once(
    ids: Seq<Seq<char>>,
    legacy: Option<LegacyFile>,
    records: Seq<RecordView>,
    i: int,
    names: Seq<Seq<char>>,
    again: Option<LegacyFile>,
)
    requires
        migrated(ids, legacy, records) is Some,
        0 <= i < (migrated(ids, legacy, records)->0).1.len(),
        model_file((migrated(ids, legacy, records)->0).1[i].0) != BOX_FILE@,
        names.contains(model_file((migrated(ids, legacy, records)->0).1[i].0)),
    ensures
        migrated(listed_ids(names), again, records) is None,
{
    let name = model_file((migrated(ids, legacy, records)->0).1[i].0);
    let at = name.len() - ".json"@.len();
    assert(name.subrange(at, name.len() as int) =~= ".json"@);
    assert(ends(name, ".json"@));
    lemma_json_files_are_listed(names, name);
}

/// A store that has models is left as it is, and a migrated one holds every model of the old.
pub proof fn law_a_migration_keeps_every_model(
    ids: Seq<Seq<char>>,
    legacy: LegacyFile,
    records: Seq<RecordView>,
    i: int,
)
    requires
        0 <= i < legacy.models@.len(),
    ensures
        ids.len() > 0 ==> migrated(ids, Some(legacy), records) is None,
        ids.len() == 0 ==> migrated(ids, Some(legacy), records) is Some && (migrated(
            ids,
            Some(legacy),
            records,
        )->0).1.len() == legacy.models@.len() && (migrated(ids, Some(legacy), records)->0).1[i]
            == split_off(legacy.models@[i], records),
{
}

/// The measurement of a flat entry whose model is in the config is found under the model's
/// command afterwards.
pub proof fn law_flat_entries_are_found(model: LegacyModel, records: Seq<RecordView>)
    requires
        model.flat is Some,
        model.store@.measurements.len() == 0,
        current_hash(records, model.id@) is Some,
    ensures
        lookup(
            split_off(model, records).1.measurements,
            current_hash(records, model.id@)->0,
        ) == Some(known_split(model.flat->0@)),
{
    let hash = current_hash(records, model.id@)->0;
    let table = known_splits(rekeyed(model, records));
    assert(table.len() == 1);
    assert(table[0] == (hash, known_split(model.flat->0@)));
}

fn hash_of(records: &Vec<ModelRecord>, id: &str) -> (r: Option<String>)
    ensures
        text_view(r) == current_hash(views(records@), id@),
{
    let ghost all = views(records@);
    let mut at: usize = 0;
    proof {
        assert(all.skip(0) =~= all);
    }
    while at < records.len()
        invariant
            at <= records@.len(),
            all == views(records@),
            current_hash(all.skip(at as int), id@) == current_hash(all, id@),
        decreases records@.len() - at,
    {
        proof {
            assert(all.skip(at as int)[0] == records@[at as int]@);
            assert(all.skip(at as int).skip(1) =~= all.skip(at + 1));
        }
        if same(records[at].id.as_str(), id) {
            return Some(records[at].param_hash.clone());
        }
        at = at + 1;
    }
    None
}

fn split_model(model: LegacyModel, records: &Vec<ModelRecord>) -> (r: (String, ModelStore))
    ensures
        (r.0@, r.1@) == split_off(model, views(records@)),
{
    let mut store = model.store;
    let ghost before = store@;
    let empty = reading_entry(&store.measurements, 0).is_none();
    if empty {
        if let Some(reading) = model.flat {
            if let Some(hash) = hash_of(records, model.id.as_str()) {
                put_reading(&mut store.measurements, hash, reading);
                proof {
                    assert(before.measurements =~= Seq::empty());
                }
            }
        }
    }
    store.normalize_pool_split();
    (model.id, store)
}

/// Split a single-file store into what the box file and each model's file hold.
fn split(legacy: LegacyFile, records: &Vec<ModelRecord>) -> (r: (
    BoxMeta,
    Vec<(String, ModelStore)>,
))
    ensures
        (r.0@, file_views(r.1@)) == split_up(legacy, views(records@)),
{
    let box_meta = BoxMeta {
        baseline: legacy.baseline,
        detected_total: legacy.budget,
        host_total: None,
        host_baseline: None,
        date: legacy.date,
        additivity_check: legacy.additivity_check,
        written_by: None,
    };
    let ghost before = legacy.models@;
    let mut rest = legacy.models;
    let mut models: Vec<(String, ModelStore)> = Vec::new();
    let ghost wanted = Seq::new(before.len(), |i: int| split_off(before[i], views(records@)));
    proof {
        assert(before.skip(0) =~= before);
        assert(file_views(models@) =~= wanted.take(0));
    }
    while rest.len() > 0
        invariant
            models@.len() + rest@.len() == before.len(),
            rest@ == before.skip(models@.len() as int),
            wanted == Seq::new(before.len(), |i: int| split_off(before[i], views(records@))),
            file_views(models@) == wanted.take(models@.len() as int),
        decreases rest@.len(),
    {
        let ghost done = models@.len() as int;
        let model = rest.remove(0);
        proof {
            assert(rest@ =~= before.skip(done + 1));
        }
        let entry = split_model(model, records);
        proof {
            assert(file_views(models@.push(entry)) =~= file_views(models@).push(
                (entry.0@, entry.1@),
            ));
            assert(wanted.take(done + 1) =~= wanted.take(done).push(wanted[done]));
        }
        models.push(entry);
    }
    proof {
        assert(wanted.take(before.len() as int) =~= wanted);
    }
    (box_meta, models)
}

// ---- which reading counts -----------------------------------------------------------------

/// A reading counts as a footprint exactly if its status is `ok`, and as a confirmed one exactly
/// if its allocation was seen to finish too: not knowing is not enough.
pub proof fn law_only_seen_allocations_are_confirmed(reading: ReadingView)
    ensures
        reading_ok(reading) <==> reading.status == "ok"@,
        reading_confirmed(reading) <==> reading.status == "ok"@ && reading.allocation_confirmed
            == Some(true),
{
}

/// A footprint under the very hash that is asked for is found.
pub proof fn law_a_footprint_is_found_under_its_hash(
    store: StoreView,
    hash: Seq<char>,
    reading: ReadingView,
)
    requires
        lookup(store.measurements, hash) == Some(reading),
    ensures
        reading.status == "ok"@ ==> selected(store, hash) == Some(reading),
        reading.status != "ok"@ ==> selected(store, hash) is None,
{
}

/// A miss is a miss: in a file of any other type than a proxy's, what stands under other hashes
/// is never found.
pub proof fn law_a_miss_is_a_miss(store: StoreView, hash: Seq<char>)
    requires
        store.model_type != "tts-proxy"@,
        lookup(store.measurements, hash) is None,
    ensures
        selected(store, hash) is None,
{
}

/// A proxy's footprint, set by hand under any key, is found where it is the file's only one, and
/// with two there is nothing to choose by.
pub proof fn law_a_hand_set_footprint_is_found_alone(
    store: StoreView,
    hash: Seq<char>,
    key: Seq<char>,
    reading: ReadingView,
)
    requires
        store.model_type == "tts-proxy"@,
        lookup(store.measurements, hash) is None,
    ensures
        store.measurements == seq![(key, reading)] && reading.status == "ok"@ ==> selected(
            store,
            hash,
        ) == Some(reading),
        forall|i: int, j: int|
            0 <= i < j < store.measurements.len() && (#[trigger] store.measurements[i]).1.status
                == "ok"@ && (#[trigger] store.measurements[j]).1.status == "ok"@ ==> selected(
                store,
                hash,
            ) is None,
{
    let table = store.measurements;
    if table == seq![(key, reading)] && reading.status == "ok"@ {
        assert(table.drop_last() =~= Seq::<(Seq<char>, ReadingView)>::empty());
        assert(ok_entries(table.drop_last()) =~= Seq::<ReadingView>::empty());
        assert(ok_entries(table) =~= seq![reading]);
    }
    assert forall|i: int, j: int|
        0 <= i < j < table.len() && (#[trigger] table[i]).1.status == "ok"@ && (
        #[trigger] table[j]).1.status == "ok"@ implies selected(store, hash) is None by {
        lemma_two_ok(table, i, j);
    }
}

proof fn lemma_one_ok(table: Seq<(Seq<char>, ReadingView)>, i: int)
    requires
        0 <= i < table.len(),
        reading_ok(table[i].1),
    ensures
        ok_entries(table).len() >= 1,
    decreases table.len(),
{
    if i < table.len() - 1 {
        lemma_one_ok(table.drop_last(), i);
    }
}

proof fn lemma_two_ok(table: Seq<(Seq<char>, ReadingView)>, i: int, j: int)
    requires
        0 <= i < j < table.len(),
        reading_ok(table[i].1),
        reading_ok(table[j].1),
    ensures
        ok_entries(table).len() >= 2,
    decreases table.len(),
{
    if j < table.len() - 1 {
        lemma_two_ok(table.drop_last(), i, j);
    } else {
        lemma_one_ok(table.drop_last(), i);
    }
}

/// A footprint below nine tenths of the weights on disk is implausible, and no other is; without
/// known weights nothing is claimed.
pub proof fn law_nine_tenths_of_the_weights_are_plausible(reading: ReadingView)
    ensures
        under_weights(reading) <==> reading.weights_gb is Some && reading.weights_gb->0 > 0
            && reading.d_total * 10 < reading.weights_gb->0 * 9,
{
}

/// A renamed model's footprint is found: where a file that no configured model owns holds a
/// confirmed footprint under the hash, one is adopted.
pub proof fn law_a_renamed_model_is_recognised(
    files: Seq<(Seq<char>, StoreView)>,
    live: Seq<Seq<char>>,
    hash: Seq<char>,
    i: int,
    reading: ReadingView,
)
    requires
        0 <= i < files.len(),
        forall|k: int| 0 <= k < live.len() ==> safe_file(#[trigger] live[k]) != files[i].0,
        lookup(files[i].1.measurements, hash) == Some(reading),
        reading.status == "ok"@,
        reading.allocation_confirmed == Some(true),
    ensures
        adopted_from(files, live, hash) is Some,
    decreases files.len(),
{
    if i > 0 {
        law_a_renamed_model_is_recognised(files.skip(1), live, hash, i - 1, reading);
    }
}

/// Adoption takes nothing from a model that is still configured, and nothing that was not seen
/// to finish.
pub proof fn law_nothing_is_taken_from_a_live_model(
    files: Seq<(Seq<char>, StoreView)>,
    live: Seq<Seq<char>>,
    hash: Seq<char>,
    k: int,
)
    requires
        adopted_from(files, live, hash) is Some,
        0 <= k < live.len(),
    ensures
        safe_file(live[k]) != (adopted_from(files, live, hash)->0).0,
        (adopted_from(files, live, hash)->0).1.status == "ok"@,
        (adopted_from(files, live, hash)->0).1.allocation_confirmed == Some(true),
{
    let i = law_adoption_is_sound(files, live, hash);
}

/// Only path separators change in a file name: every other character of an id stays.
pub proof fn law_file_names_keep_the_id(id: Seq<char>, i: int)
    requires
        0 <= i < id.len(),
    ensures
        safe_file(id).len() == id.len(),
        id[i] != '/' && id[i] != '\\' ==> safe_file(id)[i] == id[i],
        id[i] == '/' || id[i] == '\\' ==> safe_file(id)[i] == '_',
{
}

/// Reading a split as unknown touches nothing but the split, and that only where both of its
/// parts are zero beside a total that is not.
pub proof fn law_only_unpopulated_splits_are_cleared(reading: ReadingView)
    ensures
        known_split(reading).status == reading.status,
        known_split(reading).d_total == reading.d_total,
        known_split(reading).abs_total == reading.abs_total,
        known_split(reading).allocation_confirmed == reading.allocation_confirmed,
        known_split(reading).d_host == reading.d_host,
        known_split(reading).weights_gb == reading.weights_gb,
        known_split(reading).contended == reading.contended,
        known_split(reading).params == reading.params,
        reading.d_total > 0 && reading.d_vram == Some(0i64) && reading.d_gtt == Some(0i64)
            ==> known_split(reading).d_vram is None && known_split(reading).d_gtt is None,
        !(reading.d_total > 0 && reading.d_vram == Some(0i64) && reading.d_gtt == Some(0i64))
            ==> known_split(reading).d_vram == reading.d_vram && known_split(reading).d_gtt
            == reading.d_gtt,
        reading.abs_total > 0 && reading.abs_vram == Some(0i64) && reading.abs_gtt == Some(0i64)
            ==> known_split(reading).abs_vram is None && known_split(reading).abs_gtt is None,
        !(reading.abs_total > 0 && reading.abs_vram == Some(0i64) && reading.abs_gtt
            == Some(0i64)) ==> known_split(reading).abs_vram == reading.abs_vram && known_split(
            reading,
        ).abs_gtt == reading.abs_gtt,
{
}

/// A store lists a model's file by the id in its name, and never lists the box's.
pub proof fn law_model_files_are_listed(names: Seq<Seq<char>>, id: Seq<char>)
    requires
        names.contains(id + ".json"@),
        id + ".json"@ != "_box.json"@,
        !ends(id, ".json"@),
    ensures
        listed_ids(names).contains(id),
    decreases names.len(),
{
    let name = id + ".json"@;
    let before = listed_ids(names.drop_last());
    if names.last() == name {
        reveal_strlit(".json");
        let at = name.len() - ".json"@.len();
        assert(name.subrange(at, name.len() as int) =~= ".json"@);
        assert(ends(name, ".json"@));
        assert(name.take(name.len() - ".json"@.len()) =~= id);
        assert(without_suffix(id, ".json"@) == id);
        assert(without_suffix(name, ".json"@) == id);
        assert(listed_ids(names)[before.len() as int] == id);
    } else {
        let i = choose|i: int| 0 <= i < names.len() && names[i] == name;
        assert(names.drop_last()[i] == name);
        law_model_files_are_listed(names.drop_last(), id);
        let k = choose|k: int| 0 <= k < before.len() && before[k] == id;
        assert(listed_ids(names)[k] == id);
    }
}

/// A migration carries the box-level values over: the baseline, the budget as the detected
/// total, the date and the last check.
pub proof fn law_a_migration_keeps_the_box(
    legacy: LegacyFile,
    records: Seq<RecordView>,
)
    ensures
        (migrated(Seq::empty(), Some(legacy), records)->0).0.baseline == legacy.baseline,
        (migrated(Seq::empty(), Some(legacy), records)->0).0.detected_total == legacy.budget,
        (migrated(Seq::empty(), Some(legacy), records)->0).0.date == text_view(legacy.date),
        legacy.additivity_check is Some ==> (migrated(
            Seq::empty(),
            Some(legacy),
            records,
        )->0).0.additivity_check == Some(legacy.additivity_check->0@),
{
}

/// A migrated model keeps every reading of its table under its hash.
pub proof fn law_a_migration_keeps_every_reading(
    model: LegacyModel,
    records: Seq<RecordView>,
    i: int,
)
    requires
        0 <= i < model.store@.measurements.len(),
    ensures
        split_off(model, records).0 == model.id@,
        split_off(model, records).1.model_type == model.store@.model_type,
        split_off(model, records).1.measurements.len() == model.store@.measurements.len(),
        split_off(model, records).1.measurements[i].0 == model.store@.measurements[i].0,
        split_off(model, records).1.measurements[i].1.d_total
            == model.store@.measurements[i].1.d_total,
        split_off(model, records).1.measurements[i].1.status
            == model.store@.measurements[i].1.status,
        split_off(model, records).1.measurements[i].1.allocation_confirmed
            == model.store@.measurements[i].1.allocation_confirmed,
{
}

/// A version is newer by its numbers, the major one first, whatever follows a `-` or a `+`.
pub proof fn law_versions_go_by_their_numbers(
    a: (nat, nat, nat),
    b: (nat, nat, nat),
)
    ensures
        a.0 > b.0 ==> after(a, b),
        a.0 == b.0 && a.1 > b.1 ==> after(a, b),
        a.0 == b.0 && a.1 == b.1 && a.2 > b.2 ==> after(a, b),
        a == b ==> !after(a, b),
        a.0 < b.0 ==> !after(a, b),
        a.0 == b.0 && a.1 < b.1 ==> !after(a, b),
        a.0 == b.0 && a.1 == b.1 && a.2 < b.2 ==> !after(a, b),
{
}

/// A stamp is one of the two versions: the newer one, and the writer's own where neither is.
pub proof fn law_a_stamp_is_the_newer_version(previous: Seq<char>, writer: Seq<char>)
    ensures
        stamp_over(None, writer) == writer,
        after(version_numbers(previous), version_numbers(writer)) ==> stamp_over(
            Some(previous),
            writer,
        ) == previous,
        !after(version_numbers(previous), version_numbers(writer)) ==> stamp_over(
            Some(previous),
            writer,
        ) == writer,
{
}

/// A version is read as its three numbers, whatever stands behind a `-` or a `+`.
pub proof fn law_versions_are_read(major: nat, minor: nat, patch: nat, sign: char, rest: Seq<char>)
    requires
        major <= u64::MAX,
        minor <= u64::MAX,
        patch <= u64::MAX,
        sign == '-' || sign == '+',
    ensures
        ({
            let version = digits(major).push('.') + digits(minor).push('.') + digits(patch);
            &&& version_numbers(version) == (major, minor, patch)
            &&& version_numbers(version.push(sign) + rest) == (major, minor, patch)
        }),
{
    let a = digits(major);
    let b = digits(minor);
    let c = digits(patch);
    let version = a.push('.') + b.push('.') + c;
    law_digits_are_read_back(major);
    law_digits_are_read_back(minor);
    law_digits_are_read_back(patch);
    law_numbers_are_read(major, u64::MAX as nat);
    law_numbers_are_read(minor, u64::MAX as nat);
    law_numbers_are_read(patch, u64::MAX as nat);
    assert forall|i: int| 0 <= i < version.len() implies #[trigger] version[i] != '-' && version[i]
        != '+' by {
        if i < a.len() {
            assert(is_digit(a[i]));
        } else if a.len() < i < a.len() + 1 + b.len() {
            assert(is_digit(b[i - a.len() - 1]));
        } else if i > a.len() + 1 + b.len() {
            assert(is_digit(c[i - a.len() - 2 - b.len()]));
        }
    }
    lemma_core(version, Seq::empty());
    assert(version + Seq::<char>::empty() =~= version);
    let more = seq![sign] + rest;
    lemma_core(version, more);
    assert(version.push(sign) + rest =~= version + more);
    assert forall|i: int| 0 <= i < a.len() implies #[trigger] a[i] != '.' by {
        assert(is_digit(a[i]));
    }
    assert forall|i: int| 0 <= i < b.len() implies #[trigger] b[i] != '.' by {
        assert(is_digit(b[i]));
    }
    assert forall|i: int| 0 <= i < c.len() implies #[trigger] c[i] != '.' by {
        assert(is_digit(c[i]));
    }
    law_a_text_without_separators_is_one_piece(a, '.');
    law_a_text_without_separators_is_one_piece(b, '.');
    law_a_text_without_separators_is_one_piece(c, '.');
    law_a_text_is_cut_at_every_separator(b, c, '.');
    law_a_text_is_cut_at_every_separator(a, b.push('.') + c, '.');
    assert(version =~= a.push('.') + (b.push('.') + c));
    let parts = pieces(version, '.');
    assert(parts =~= seq![a, b, c]);
}

proof fn lemma_core(core: Seq<char>, more: Seq<char>)
    requires
        forall|i: int| 0 <= i < core.len() ==> #[trigger] core[i] != '-' && core[i] != '+',
        more.len() > 0 ==> more[0] == '-' || more[0] == '+',
    ensures
        version_core(core + more) == core,
    decreases core.len(),
{
    if core.len() == 0 {
        assert(core + more =~= more);
        assert(version_core(more) =~= core);
    } else {
        let whole = core + more;
        assert(core[0] != '-' && core[0] != '+');
        lemma_core(core.skip(1), more);
        assert(whole.skip(1) =~= core.skip(1) + more);
        assert(seq![core[0]] + core.skip(1) =~= core);
    }
}

/// Only model files are listed: every listed id has a file of its name that is not the box's.
pub proof fn law_only_model_files_are_listed(names: Seq<Seq<char>>, k: int)
    requires
        0 <= k < listed_ids(names).len(),
    ensures
        exists|i: int|
            0 <= i < names.len() && ends(#[trigger] names[i], ".json"@) && names[i] != "_box.json"@
                && listed_ids(names)[k] == without_suffix(names[i], ".json"@),
    decreases names.len(),
{
    let fewer = names.drop_last();
    let before = listed_ids(fewer);
    if k < before.len() {
        law_only_model_files_are_listed(fewer, k);
        let i = choose|i: int|
            0 <= i < fewer.len() && ends(#[trigger] fewer[i], ".json"@) && fewer[i] != "_box.json"@
                && before[k] == without_suffix(fewer[i], ".json"@);
        assert(names[i] == fewer[i]);
    } else {
        assert(ends(names[names.len() - 1], ".json"@));
    }
}

/// Every usable reading under another hash that holds less is an alternative, and nothing else
/// is.
pub proof fn law_cheaper_readings_are_alternatives(
    table: Seq<(Seq<char>, ReadingView)>,
    hash: Seq<char>,
    than: i64,
    held: i64,
    params: Seq<char>,
)
    ensures
        cheaper(table, hash, than).contains((held, params)) <==> held < than && exists|i: int|
            0 <= i < table.len() && (#[trigger] table[i]).0 != hash && table[i].1.status == "ok"@
                && table[i].1.d_total == held && table[i].1.params == params,
    decreases table.len(),
{
    let all = cheaper(table, hash, than);
    if table.len() > 0 {
        let fewer = table.drop_last();
        let last = table.len() - 1;
        let before = cheaper(fewer, hash, than);
        law_cheaper_readings_are_alternatives(fewer, hash, than, held, params);
        if before.contains((held, params)) {
            let k = choose|k: int| 0 <= k < before.len() && before[k] == (held, params);
            assert(all[k] == (held, params));
            let i = choose|i: int|
                0 <= i < fewer.len() && (#[trigger] fewer[i]).0 != hash && fewer[i].1.status
                    == "ok"@ && fewer[i].1.d_total == held && fewer[i].1.params == params;
            assert(table[i].0 != hash);
        }
        if all.contains((held, params)) && !before.contains((held, params)) {
            let k = choose|k: int| 0 <= k < all.len() && all[k] == (held, params);
            if k < before.len() {
                assert(before[k] == (held, params));
            }
            assert(table[last].0 != hash);
        }
        if held < than && exists|i: int|
            0 <= i < table.len() && (#[trigger] table[i]).0 != hash && table[i].1.status == "ok"@
                && table[i].1.d_total == held && table[i].1.params == params {
            let i = choose|i: int|
                0 <= i < table.len() && (#[trigger] table[i]).0 != hash && table[i].1.status
                    == "ok"@ && table[i].1.d_total == held && table[i].1.params == params;
            if i < last {
                assert(fewer[i].0 != hash);
            } else {
                assert(all[before.len() as int] == (held, params));
            }
        }
    }
}

/// Of several orphaned files that hold the reading, the first is taken.
pub proof fn law_the_first_orphan_is_taken(
    files: Seq<(Seq<char>, StoreView)>,
    live: Seq<Seq<char>>,
    hash: Seq<char>,
    i: int,
    reading: ReadingView,
)
    requires
        0 <= i < files.len(),
        forall|k: int| 0 <= k < live.len() ==> safe_file(#[trigger] live[k]) != files[i].0,
        lookup(files[i].1.measurements, hash) == Some(reading),
        reading.status == "ok"@,
        reading.allocation_confirmed == Some(true),
        forall|j: int| 0 <= j < i ==> lookup((#[trigger] files[j]).1.measurements, hash) is None,
    ensures
        adopted_from(files, live, hash) == Some((files[i].0, reading)),
    decreases files.len(),
{
    if i > 0 {
        let rest = files.skip(1);
        assert(lookup(files[0].1.measurements, hash) is None);
        assert forall|j: int| 0 <= j < i - 1 implies lookup(
            (#[trigger] rest[j]).1.measurements,
            hash,
        ) is None by {
            assert(lookup(files[j + 1].1.measurements, hash) is None);
        }
        law_the_first_orphan_is_taken(rest, live, hash, i - 1, reading);
    }
}

/// A flat entry is filed under the hash of the model's command as it is now; the weight file that
/// an entry names is kept.
pub proof fn law_a_migration_goes_by_the_current_command(
    model: LegacyModel,
    records: Seq<RecordView>,
    r: int,
)
    requires
        0 <= r < records.len(),
        records[r].id == model.id@,
        forall|k: int| 0 <= k < r ==> (#[trigger] records[k]).id != model.id@,
    ensures
        current_hash(records, model.id@) == Some(records[r].param_hash),
        split_off(model, records).1.file == model.store@.file,
    decreases records.len(),
{
    if r > 0 {
        let rest = records.skip(1);
        assert(records[0].id != model.id@);
        assert forall|k: int| 0 <= k < r - 1 implies (#[trigger] rest[k]).id != model.id@ by {
            assert(records[k + 1].id != model.id@);
        }
        law_a_migration_goes_by_the_current_command(model, rest, r - 1);
    }
}

/// A file's path is its directory's and its name, with one `/` between them.
pub proof fn law_a_path_has_one_slash(dir: Seq<char>, name: Seq<char>)
    requires
        dir.len() > 0,
        dir.last() != '/',
    ensures
        file_in(dir, name) == dir.push('/') + name,
        file_in(dir.push('/'), name) == dir.push('/') + name,
        file_in(Seq::empty(), name) == name,
{
    reveal_strlit("/");
    assert(dir + "/"@ =~= dir.push('/'));
    assert(Seq::<char>::empty() + name =~= name);
}

/// A model's file is named after its id, and told from the box's.
pub proof fn law_a_model_file_is_named_after_it(id: Seq<char>)
    ensures
        model_file(id).len() == id.len() + 5,
        ends(model_file(id), ".json"@),
        forall|i: int|
            0 <= i < id.len() && id[i] != '/' && id[i] != '\\' ==> #[trigger] model_file(id)[i]
                == id[i],
{
    reveal_strlit(".json");
    let name = model_file(id);
    let at = name.len() - ".json"@.len();
    assert(name.subrange(at, name.len() as int) =~= ".json"@);
}

} // verus!
