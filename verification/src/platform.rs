//! What memory sensors report: reading the counters' text is here, running the tools that
//! print it and opening the files that hold it is the frontend's.
//!
//! Backends: AMD `amdgpu` sysfs (VRAM and GTT), NVIDIA's `nvidia-smi`, and Apple Silicon's
//! unified memory. Without one `measure` cannot run, but `build` still works from a stored
//! or configured budget.

use vstd::prelude::*;
use vstd::string::*;

use crate::cache::{file_in, joined_path};
use crate::number::{
    clamped, count_text, decimal, digits, magnitude, mib_amount, nearest, parse_decimal, parse_mib,
    parse_u64, unsigned,
};
use crate::text::{
    chars_of, find, find_line, first_from, is_digit, law_the_first_place_is_found,
    law_the_first_such_line_is_found, line_starting, occurs_at, pieces, split_on, split_whitespace,
    starts, text_between, trim, trim_both, views, words,
};

verus! {

// ---- amounts ------------------------------------------------------------------------------

/// A number of bytes as an amount, to the nearest unit.
pub open spec fn bytes_amount(bytes: nat) -> int {
    clamped(nearest(bytes * 15_625, 16_384) as int)
}

/// A number of bytes as an amount.
pub fn units_of_bytes(bytes: u128) -> (units: i64)
    requires
        bytes <= 0xffff_ffff_ffff_ffff_ffff,
    ensures
        units == bytes_amount(bytes as nat),
{
    let scaled: u128 = bytes * 15_625;
    let whole: u128 = scaled / 16_384;
    let left: u128 = scaled % 16_384;
    let units: u128 = if left > 8_192 || (left == 8_192 && whole % 2 == 1) {
        whole + 1
    } else {
        whole
    };
    if units > i64::MAX as u128 {
        i64::MAX
    } else {
        units as i64
    }
}

/// A counter's text: an unsigned number with white space around it.
pub open spec fn counter(text: Seq<char>) -> Option<nat> {
    unsigned(trim_both(text), u64::MAX as nat)
}

pub fn parse_counter(text: &str) -> (r: Option<u64>)
    ensures
        match r {
            Some(n) => counter(text@) == Some(n as nat),
            None => counter(text@) is None,
        },
{
    parse_u64(trim(text).as_str())
}

// ---- AMD ----------------------------------------------------------------------------------

/// AMD `amdgpu` sysfs. An APU exposes a VRAM carve-out plus a GPU-accessible pool of system
/// memory (GTT) that models spill into, so occupancy is their sum. A discrete card has no
/// GTT pool.
#[derive(Debug)]
pub struct AmdSysfs {
    pub device_dir: String,
}

/// The device directory of a DRM card.
pub open spec fn card_dir(card: nat) -> Seq<char> {
    "/sys/class/drm/card"@ + digits(card) + "/device"@
}

/// The position of the first `true`.
pub open spec fn first_true(flags: Seq<bool>) -> Option<int>
    decreases flags.len(),
{
    if flags.len() == 0 {
        None
    } else if flags[0] {
        Some(0)
    } else {
        match first_true(flags.skip(1)) {
            Some(i) => Some(i + 1),
            None => None,
        }
    }
}

impl AmdSysfs {
    /// The device directory of a DRM card.
    pub fn candidate(card: usize) -> (dir: String)
        ensures
            dir@ == card_dir(card as nat),
    {
        "/sys/class/drm/card".to_owned().concat(count_text(card).as_str()).concat("/device")
    }

    /// The first card that has memory counters, by whether each has.
    pub fn detect(has_counters: &Vec<bool>) -> (r: Option<Self>)
        ensures
            match r {
                Some(found) => first_true(has_counters@) is Some && found.device_dir@ == card_dir(
                    first_true(has_counters@)->0 as nat,
                ),
                None => first_true(has_counters@) is None,
            },
    {
        let ghost all = has_counters@;
        let mut card: usize = 0;
        proof {
            assert(all.skip(0) =~= all);
        }
        while card < has_counters.len()
            invariant
                card <= has_counters@.len(),
                all == has_counters@,
                first_true(all) == (match first_true(all.skip(card as int)) {
                    Some(i) => Some(i + card),
                    None => None,
                }),
            decreases has_counters@.len() - card,
        {
            proof {
                assert(all.skip(card as int)[0] == all[card as int]);
                assert(all.skip(card as int).skip(1) =~= all.skip(card + 1));
            }
            if has_counters[card] {
                return Some(AmdSysfs { device_dir: AmdSysfs::candidate(card) });
            }
            card = card + 1;
        }
        None
    }

    /// The device in a given directory.
    pub fn at(device_dir: &str) -> (r: Self)
        ensures
            r.device_dir@ == device_dir@,
    {
        AmdSysfs { device_dir: device_dir.to_owned() }
    }

    /// Where a counter is.
    pub fn counter_path(&self, name: &str) -> (path: String)
        ensures
            path@ == file_in(self.device_dir@, name@),
    {
        joined_path(self.device_dir.as_str(), name)
    }

    pub fn label(&self) -> (text: String)
        ensures
            text@ == "AMD amdgpu ("@ + self.device_dir@ + ")"@,
    {
        "AMD amdgpu (".to_owned().concat(self.device_dir.as_str()).concat(")")
    }

    /// Both pools together: VRAM as counted, and GTT where it is counted at all.
    pub fn pooled(vram: u64, gtt: Option<u64>) -> (units: i64)
        ensures
            units == bytes_amount(
                (vram + (match gtt {
                    Some(n) => n,
                    None => 0,
                })) as nat,
            ),
    {
        let spill: u64 = match gtt {
            Some(n) => n,
            None => 0,
        };
        units_of_bytes(vram as u128 + spill as u128)
    }

    /// Each pool by itself. A card without a GTT pool holds a true zero there.
    pub fn split(vram: u64, gtt: Option<u64>) -> (r: (i64, i64))
        ensures
            r.0 == bytes_amount(vram as nat),
            r.1 == bytes_amount(
                match gtt {
                    Some(n) => n as nat,
                    None => 0,
                },
            ),
    {
        let spill: u64 = match gtt {
            Some(n) => n,
            None => 0,
        };
        (units_of_bytes(vram as u128), units_of_bytes(spill as u128))
    }
}

// ---- NVIDIA -------------------------------------------------------------------------------

/// NVIDIA through `nvidia-smi`, all visible GPUs as one pool.
#[derive(Debug, Clone, Copy)]
pub struct NvidiaSmi;

/// What the lines that are plain numbers of MiB come to.
pub open spec fn mib_total(lines: Seq<Seq<char>>) -> int
    decreases lines.len(),
{
    if lines.len() == 0 {
        0
    } else {
        let before = mib_total(lines.drop_last());
        match mib_amount(trim_both(lines.last())) {
            Some(units) => before + units,
            None => before,
        }
    }
}

impl NvidiaSmi {
    pub fn label() -> (text: &'static str)
        ensures
            text@ == "NVIDIA (nvidia-smi)"@,
    {
        "NVIDIA (nvidia-smi)"
    }

    /// The sum of what `nvidia-smi` prints for a memory field: one number of MiB per GPU.
    pub fn sum_units(output: &str) -> (units: i64)
        ensures
            units == clamped(mib_total(pieces(output@, '\n'))),
    {
        let lines = split_on(output, '\n');
        let ghost all = views(lines@);
        let mut total: i128 = 0;
        let mut at: usize = 0;
        while at < lines.len()
            invariant
                at <= lines@.len(),
                all == views(lines@),
                total == mib_total(all.take(at as int)),
                -at * 0x8000_0000_0000_0000 <= total <= at * 0x8000_0000_0000_0000,
            decreases lines@.len() - at,
        {
            proof {
                assert(all.take(at + 1).drop_last() =~= all.take(at as int));
                assert(all.take(at + 1).last() == lines@[at as int]@);
            }
            if let Some(units) = parse_mib(trim(lines[at].as_str()).as_str()) {
                total = total + units as i128;
            }
            at = at + 1;
        }
        proof {
            assert(all.take(at as int) =~= all);
        }
        if total > i64::MAX as i128 {
            i64::MAX
        } else if total < -(i64::MAX as i128) {
            -i64::MAX
        } else {
            total as i64
        }
    }
}

// ---- Apple --------------------------------------------------------------------------------

/// Apple Silicon: CPU and GPU share one pool, so reserve headroom with `budget` or `margin`
/// rather than planning against the full total.
#[derive(Debug)]
pub struct AppleSilicon {
    pub chip: String,
}

impl AppleSilicon {
    /// The device, if its in-use counter can be read.
    pub fn detect(in_use: Option<u64>, chip: Option<&String>) -> (r: Option<Self>)
        ensures
            match r {
                Some(found) => in_use is Some && found.chip@ == (match chip {
                    Some(name) => name@,
                    None => "Apple Silicon"@,
                }),
                None => in_use is None,
            },
    {
        match in_use {
            Some(_) => Some(
                AppleSilicon {
                    chip: match chip {
                        Some(name) => name.clone(),
                        None => "Apple Silicon".to_owned(),
                    },
                },
            ),
            None => None,
        }
    }

    pub fn label(&self) -> (text: String)
        ensures
            text@ == self.chip@ + " (Metal unified memory)"@,
    {
        self.chip.clone().concat(" (Metal unified memory)")
    }
}

/// The digits at the start of `s`.
pub open spec fn leading_digits(s: Seq<char>) -> Seq<char>
    decreases s.len(),
{
    if s.len() > 0 && is_digit(s[0]) {
        seq![s[0]] + leading_digits(s.skip(1))
    } else {
        Seq::empty()
    }
}

/// The in-use counter in `ioreg`'s text: the exact key, not its `(driver)` sibling.
pub open spec fn in_use_counter(text: Seq<char>) -> Option<nat> {
    let key = "\"In use system memory\"="@;
    match first_from(text, key, 0) {
        Some(at) => unsigned(leading_digits(text.skip(at + key.len())), u64::MAX as nat),
        None => None,
    }
}

/// Extract the GPU's in-use unified memory, in bytes, from `ioreg`'s text.
pub fn parse_in_use(ioreg_text: &str) -> (r: Option<u64>)
    ensures
        match r {
            Some(n) => in_use_counter(ioreg_text@) == Some(n as nat),
            None => in_use_counter(ioreg_text@) is None,
        },
{
    let chars = chars_of(ioreg_text);
    let key = chars_of("\"In use system memory\"=");
    let length: usize = chars.len();
    match find(chars.as_slice(), key.as_slice()) {
        Some(at) => {
            let start: usize = at + key.len();
            let ghost rest = chars@.skip(start as int);
            let mut end: usize = start;
            proof {
                assert(rest.skip(0) =~= rest);
                assert(rest.take(0) + leading_digits(rest) =~= leading_digits(rest));
            }
            while end < length && '0' <= chars[end] && chars[end] <= '9'
                invariant
                    length == chars@.len(),
                    start <= end <= length,
                    rest == chars@.skip(start as int),
                    rest.take(end - start) + leading_digits(rest.skip(end - start))
                        == leading_digits(rest),
                decreases length - end,
            {
                proof {
                    let left = rest.skip(end - start);
                    assert(left[0] == chars@[end as int]);
                    assert(left.skip(1) =~= rest.skip(end + 1 - start));
                    assert(rest.take(end + 1 - start) + leading_digits(left.skip(1))
                        =~= rest.take(end - start) + (seq![left[0]] + leading_digits(
                        left.skip(1),
                    )));
                }
                end = end + 1;
            }
            let found = text_between(chars.as_slice(), start, end);
            proof {
                let left = rest.skip(end - start);
                if end < length {
                    assert(left[0] == chars@[end as int]);
                }
                assert(leading_digits(left) =~= Seq::<char>::empty());
                assert(rest.take(end - start) + Seq::<char>::empty() =~= rest.take(end - start));
                assert(found@ =~= rest.take(end - start));
            }
            parse_u64(found.as_str())
        },
        None => None,
    }
}

// ---- the host -----------------------------------------------------------------------------

/// Host memory, in units. `used` is what is not available, rather than what is not free:
/// page cache that the kernel can reclaim is held by nobody.
#[derive(Debug, Clone, Copy, PartialEq, Eq, Structural)]
pub struct HostMemory {
    pub total_gb: i64,
    pub used_gb: i64,
}

/// A number of kB, given in millionths, as an amount, to the nearest unit.
pub open spec fn kilobytes_amount(millionths: int) -> int {
    let size = nearest(magnitude(millionths), 1024) as int;
    clamped(
        if millionths < 0 {
            -size
        } else {
            size
        },
    )
}

/// A `/proc/meminfo` field, which is a number of kB, as an amount.
pub open spec fn meminfo_field(text: Seq<char>, name: Seq<char>) -> Option<int> {
    match line_starting(pieces(text, '\n'), name) {
        Some(line) => if words(line).len() > 1 {
            kilobytes(words(line)[1])
        } else {
            None
        },
        None => None,
    }
}

/// The amount that a number of kB writes.
pub open spec fn kilobytes(s: Seq<char>) -> Option<int> {
    match decimal(s) {
        Some(millionths) => Some(kilobytes_amount(millionths)),
        None => None,
    }
}

pub open spec fn positive_part(x: int) -> int {
    if x < 0 {
        0
    } else {
        x
    }
}

/// The amount that a number of kB writes.
fn parse_kilobytes(text: &str) -> (r: Option<i64>)
    ensures
        match r {
            Some(units) => kilobytes(text@) == Some(units as int),
            None => kilobytes(text@) is None,
        },
{
    match parse_decimal(text) {
        Some(millionths) => {
            let size: i128 = if millionths < 0 {
                -millionths
            } else {
                millionths
            };
            let whole: i128 = size / 1024;
            let left: i128 = size % 1024;
            let units: i128 = if left > 512 || (left == 512 && whole % 2 == 1) {
                whole + 1
            } else {
                whole
            };
            let bounded: i64 = if units > i64::MAX as i128 {
                i64::MAX
            } else {
                units as i64
            };
            if millionths < 0 {
                Some(-bounded)
            } else {
                Some(bounded)
            }
        },
        None => None,
    }
}

fn field_of(lines: &Vec<String>, name: &str) -> (r: Option<i64>)
    ensures
        match line_starting(views(lines@), name@) {
            Some(line) => match r {
                Some(n) => words(line).len() > 1 && kilobytes(words(line)[1]) == Some(n as int),
                None => words(line).len() <= 1 || kilobytes(words(line)[1]) is None,
            },
            None => r is None,
        },
{
    match find_line(lines, name) {
        Some(line) => {
            let parts = split_whitespace(line.as_str());
            if parts.len() > 1 {
                proof {
                    assert(views(parts@)[1] == parts@[1]@);
                }
                parse_kilobytes(parts[1].as_str())
            } else {
                None
            }
        },
        None => None,
    }
}

/// `MemTotal` and `MemAvailable` out of `/proc/meminfo`. A kernel too old to publish the
/// latter reports nothing rather than a worse substitute.
pub fn parse_meminfo(meminfo: &str) -> (r: Option<HostMemory>)
    ensures
        ({
            let total = meminfo_field(meminfo@, "MemTotal:"@);
            let available = meminfo_field(meminfo@, "MemAvailable:"@);
            match r {
                Some(host) => {
                    &&& total is Some && available is Some
                    &&& host.total_gb == total->0
                    &&& host.used_gb == clamped(positive_part(total->0 - available->0))
                },
                None => total is None || available is None,
            }
        }),
{
    let lines = split_on(meminfo, '\n');
    match (field_of(&lines, "MemTotal:"), field_of(&lines, "MemAvailable:")) {
        (Some(total_gb), Some(available_gb)) => Some(used_of(total_gb, available_gb)),
        _ => None,
    }
}

/// Host memory from its total and what is available of it: what is used is never below zero.
pub fn used_of(total_gb: i64, available_gb: i64) -> (host: HostMemory)
    ensures
        host.total_gb == total_gb,
        host.used_gb == clamped(positive_part(total_gb - available_gb)),
{
    let used: i128 = total_gb as i128 - available_gb as i128;
    let used_gb: i64 = if used < 0 {
        0
    } else if used > i64::MAX as i128 {
        i64::MAX
    } else {
        used as i64
    };
    HostMemory { total_gb, used_gb }
}

/// The part of `line` after the first `mark`, up to the next one.
pub open spec fn after_mark(line: Seq<char>, mark: Seq<char>) -> Option<Seq<char>> {
    match first_from(line, mark, 0) {
        Some(at) => {
            let rest = line.skip(at + mark.len());
            match first_from(rest, mark, 0) {
                Some(next) => Some(rest.take(next)),
                None => Some(rest),
            }
        },
        None => None,
    }
}

/// The page size that `vm_stat` states in its first line.
pub open spec fn page_size(text: Seq<char>) -> Option<nat> {
    match after_mark(pieces(text, '\n')[0], "page size of "@) {
        Some(part) => if words(part).len() > 0 {
            unsigned(words(part)[0], u64::MAX as nat)
        } else {
            None
        },
        None => None,
    }
}

/// `s` without the full stops at its end.
pub open spec fn without_stops(s: Seq<char>) -> Seq<char>
    decreases s.len(),
{
    if s.len() > 0 && s.last() == '.' {
        without_stops(s.drop_last())
    } else {
        s
    }
}

/// How many pages `vm_stat` counts under a name: the number after the line's last colon, or
/// none.
pub open spec fn page_count(text: Seq<char>, name: Seq<char>) -> nat {
    match line_starting(pieces(text, '\n'), name) {
        Some(line) => match unsigned(
            without_stops(trim_both(pieces(line, ':').last())),
            u64::MAX as nat,
        ) {
            Some(n) => n,
            None => 0,
        },
        None => 0,
    }
}

/// What the kernel could hand out without evicting anyone's working set, in bytes.
pub open spec fn available_bytes(text: Seq<char>) -> Option<nat> {
    match page_size(text) {
        Some(size) => Some(
            (page_count(text, "Pages free"@) + page_count(text, "Pages inactive"@) + page_count(
                text,
                "Pages speculative"@,
            ) + page_count(text, "Pages purgeable"@)) * size,
        ),
        None => None,
    }
}

fn part_after(line: &str, mark: &str) -> (r: Option<String>)
    ensures
        match r {
            Some(part) => after_mark(line@, mark@) == Some(part@),
            None => after_mark(line@, mark@) is None,
        },
{
    let chars = chars_of(line);
    let sign = chars_of(mark);
    let length: usize = chars.len();
    match find(chars.as_slice(), sign.as_slice()) {
        Some(at) => {
            let rest = text_between(chars.as_slice(), at + sign.len(), length);
            proof {
                assert(rest@ =~= line@.skip(at + mark@.len()));
            }
            let tail = chars_of(rest.as_str());
            match find(tail.as_slice(), sign.as_slice()) {
                Some(next) => {
                    proof {
                        assert(tail@.subrange(0, next as int) =~= rest@.take(next as int));
                    }
                    Some(text_between(tail.as_slice(), 0, next))
                },
                None => Some(rest),
            }
        },
        None => None,
    }
}

fn stripped_stops(text: &str) -> (r: String)
    ensures
        r@ == without_stops(text@),
{
    let chars = chars_of(text);
    let mut end: usize = chars.len();
    proof {
        assert(chars@.subrange(0, end as int) =~= text@);
    }
    while end > 0 && chars[end - 1] == '.'
        invariant
            end <= chars@.len(),
            without_stops(chars@.subrange(0, end as int)) == without_stops(text@),
        decreases end,
    {
        proof {
            assert(chars@.subrange(0, end as int).drop_last() =~= chars@.subrange(0, end - 1));
        }
        end = end - 1;
    }
    text_between(chars.as_slice(), 0, end)
}

fn pages_of(lines: &Vec<String>, name: &str) -> (n: u64)
    ensures
        n == (match line_starting(views(lines@), name@) {
            Some(line) => match unsigned(
                without_stops(trim_both(pieces(line, ':').last())),
                u64::MAX as nat,
            ) {
                Some(count) => count,
                None => 0,
            },
            None => 0,
        }),
{
    match find_line(lines, name) {
        Some(line) => {
            let parts = split_on(line.as_str(), ':');
            let last: usize = parts.len() - 1;
            proof {
                assert(views(parts@)[last as int] == parts@[last as int]@);
            }
            let value = stripped_stops(trim(parts[last].as_str()).as_str());
            match parse_u64(value.as_str()) {
                Some(count) => count,
                None => 0,
            }
        },
        None => 0,
    }
}

/// Reclaimable memory from `vm_stat`'s text: free, inactive, speculative and purgeable pages.
pub fn macos_available(text: &str) -> (r: Option<i64>)
    ensures
        match r {
            Some(units) => available_bytes(text@) is Some && units == bytes_amount(
                if available_bytes(text@)->0 <= 0xffff_ffff_ffff_ffff_ffff {
                    available_bytes(text@)->0
                } else {
                    0xffff_ffff_ffff_ffff_ffff
                },
            ),
            None => available_bytes(text@) is None,
        },
{
    let lines = split_on(text, '\n');
    proof {
        assert(views(lines@)[0] == lines@[0]@);
    }
    let size: u64 = match part_after(lines[0].as_str(), "page size of ") {
        Some(part) => {
            let tokens = split_whitespace(part.as_str());
            if tokens.len() == 0 {
                return None;
            }
            proof {
                assert(views(tokens@)[0] == tokens@[0]@);
            }
            match parse_u64(tokens[0].as_str()) {
                Some(size) => size,
                None => {
                    return None;
                },
            }
        },
        None => {
            return None;
        },
    };
    let free: u64 = pages_of(&lines, "Pages free");
    let inactive: u64 = pages_of(&lines, "Pages inactive");
    let speculative: u64 = pages_of(&lines, "Pages speculative");
    let purgeable: u64 = pages_of(&lines, "Pages purgeable");
    let pages: u128 = free as u128 + inactive as u128 + speculative as u128 + purgeable as u128;
    let limit: u128 = 0xffff_ffff_ffff_ffff_ffff;
    let bytes: u128 = match pages.checked_mul(size as u128) {
        Some(product) => if product > limit {
            limit
        } else {
            product
        },
        None => limit,
    };
    Some(units_of_bytes(bytes))
}

// ---- what a sensor's numbers come to ------------------------------------------------------

/// A whole number of MiB in bytes is as many million units, and so a GiB is a GB of them.
pub proof fn law_whole_mib_of_bytes_are_exact(mib: nat)
    requires
        mib <= 9_000_000_000_000,
    ensures
        bytes_amount(mib * 1_048_576) == mib * 1_000_000,
{
    assert(mib * 1_048_576 * 15_625 == (mib * 1_000_000) * 16_384);
    assert((mib * 1_000_000) * 16_384 / 16_384 == mib * 1_000_000);
    assert((mib * 1_000_000) * 16_384 % 16_384 == 0);
}

/// More bytes are never a smaller amount.
pub proof fn law_more_bytes_are_no_less(a: nat, b: nat)
    requires
        a <= b,
    ensures
        bytes_amount(a) <= bytes_amount(b),
{
    assert(a * 15_625 <= b * 15_625);
    assert(a * 15_625 / 16_384 <= b * 15_625 / 16_384);
}

/// The amount of some bytes is right to within half a unit.
pub proof fn law_bytes_are_counted_to_the_unit(bytes: nat)
    requires
        bytes <= 0x7fff_ffff_ffff_ffff,
    ensures
        -16_384 <= 2 * (bytes_amount(bytes) * 16_384 - bytes * 15_625) <= 16_384,
{
    let total = bytes * 15_625;
    assert(total == (total / 16_384) * 16_384 + total % 16_384);
}

/// What `nvidia-smi` prints is added up: a line more with a whole number of MiB adds as much, and
/// a line that is no number adds nothing.
pub proof fn law_every_gpu_counts(lines: Seq<Seq<char>>, mib: nat, other: Seq<char>)
    requires
        mib <= 9_000_000_000_000,
        mib_amount(trim_both(other)) is None,
    ensures
        mib_total(lines.push(digits(mib))) == mib_total(lines) + mib * 1_000_000,
        mib_total(lines.push(other)) == mib_total(lines),
        mib_total(Seq::empty()) == 0,
{
    crate::number::law_whole_mib_are_read(mib);
    crate::number::law_digits_are_read_back(mib);
    let s = digits(mib);
    assert(is_digit(s[0]));
    assert(is_digit(s[s.len() - 1]));
    assert(trim_both(s) == s);
    assert(lines.push(s).drop_last() =~= lines);
    assert(lines.push(other).drop_last() =~= lines);
}

/// The card is the first that has memory counters.
pub proof fn law_the_first_card_with_counters_is_taken(flags: Seq<bool>)
    ensures
        match first_true(flags) {
            Some(at) => 0 <= at < flags.len() && flags[at] && forall|i: int|
                0 <= i < at ==> !#[trigger] flags[i],
            None => forall|i: int| 0 <= i < flags.len() ==> !#[trigger] flags[i],
        },
    decreases flags.len(),
{
    if flags.len() > 0 && !flags[0] {
        let rest = flags.skip(1);
        law_the_first_card_with_counters_is_taken(rest);
        match first_true(rest) {
            Some(at) => {
                assert forall|i: int| 0 <= i < at + 1 implies !#[trigger] flags[i] by {
                    if i > 0 {
                        assert(!rest[i - 1]);
                    }
                }
            },
            None => {
                assert forall|i: int| 0 <= i < flags.len() implies !#[trigger] flags[i] by {
                    if i > 0 {
                        assert(!rest[i - 1]);
                    }
                }
            },
        }
    }
}

/// A counter is read as the number it shows.
pub proof fn law_a_counter_is_read(n: nat)
    requires
        n <= u64::MAX,
    ensures
        counter(digits(n)) == Some(n),
{
    crate::number::law_numbers_are_read(n, u64::MAX as nat);
    crate::number::law_digits_are_read_back(n);
    let s = digits(n);
    assert(is_digit(s[0]));
    assert(is_digit(s[s.len() - 1]));
    assert(trim_both(s) == s);
}

/// A whole number of MiB in kB, as `/proc/meminfo` has it, is as many million units.
pub proof fn law_whole_mib_of_kilobytes_are_exact(mib: nat)
    requires
        mib <= 8_000_000_000,
    ensures
        kilobytes(digits(mib * 1024)) == Some((mib * 1_000_000) as int),
{
    crate::number::law_whole_mib_are_read(mib * 1024);
    let millionths = mib * 1024 * 1_000_000;
    assert(millionths == (mib * 1_000_000) * 1024);
    assert((mib * 1_000_000) * 1024 / 1024 == mib * 1_000_000);
    assert((mib * 1_000_000) * 1024 % 1024 == 0);
    crate::number::law_whole_decimals_are_read(mib * 1024);
}

/// What is used of the host is what is not available, and never below nothing.
pub proof fn law_used_is_what_is_not_available(total: int, available: int)
    ensures
        available <= total ==> positive_part(total - available) == total - available,
        available >= total ==> positive_part(total - available) == 0,
{
}

/// A field of `/proc/meminfo` is the number in the first line that starts with its name.
pub proof fn law_a_memory_field_is_in_its_line(text: Seq<char>, name: Seq<char>, i: int)
    requires
        0 <= i < pieces(text, '\n').len(),
        starts(pieces(text, '\n')[i], name),
        forall|j: int| 0 <= j < i ==> !starts(#[trigger] pieces(text, '\n')[j], name),
        words(pieces(text, '\n')[i]).len() > 1,
    ensures
        meminfo_field(text, name) == kilobytes(words(pieces(text, '\n')[i])[1]),
{
    let lines = pieces(text, '\n');
    lemma_its_line(lines, name, i);
}

proof fn lemma_its_line(lines: Seq<Seq<char>>, name: Seq<char>, i: int)
    requires
        0 <= i < lines.len(),
        starts(lines[i], name),
        forall|j: int| 0 <= j < i ==> !starts(#[trigger] lines[j], name),
    ensures
        line_starting(lines, name) == Some(lines[i]),
{
    law_the_first_such_line_is_found(lines, name);
    let line = line_starting(lines, name)->0;
    let k = choose|k: int|
        0 <= k < lines.len() && #[trigger] lines[k] == line && starts(line, name) && (forall|j: int|
            0 <= j < k ==> !starts(#[trigger] lines[j], name));
    if i < k {
        assert(!starts(lines[i], name));
    }
    if k < i {
        assert(!starts(lines[k], name));
    }
}

/// A count of `vm_stat` is the number at the end of the first line that starts with its name,
/// with or without the full stop.
pub proof fn law_a_page_count_is_in_its_line(text: Seq<char>, name: Seq<char>, i: int, n: nat)
    requires
        0 <= i < pieces(text, '\n').len(),
        starts(pieces(text, '\n')[i], name),
        forall|j: int| 0 <= j < i ==> !starts(#[trigger] pieces(text, '\n')[j], name),
        n <= u64::MAX,
        ({
            let written = trim_both(pieces(pieces(text, '\n')[i], ':').last());
            written == digits(n) || written == digits(n).push('.')
        }),
    ensures
        page_count(text, name) == n,
{
    let lines = pieces(text, '\n');
    lemma_its_line(lines, name, i);
    crate::number::law_numbers_are_read(n, u64::MAX as nat);
    crate::number::law_digits_are_read_back(n);
    let s = digits(n);
    assert(is_digit(s[s.len() - 1]));
    assert(without_stops(s) == s);
    assert(s.push('.').drop_last() =~= s);
}

/// What is available of a Mac's memory is its free, inactive, speculative and purgeable pages,
/// and no other: a page counts as much as the page size says.
pub proof fn law_four_kinds_of_pages_are_available(
    text: Seq<char>,
    size: nat,
    free: nat,
    inactive: nat,
    speculative: nat,
    purgeable: nat,
)
    requires
        page_size(text) == Some(size),
        page_count(text, "Pages free"@) == free,
        page_count(text, "Pages inactive"@) == inactive,
        page_count(text, "Pages speculative"@) == speculative,
        page_count(text, "Pages purgeable"@) == purgeable,
    ensures
        available_bytes(text) == Some(
            free * size + inactive * size + speculative * size + purgeable * size,
        ),
{
    assert((free + inactive + speculative + purgeable) * size == free * size + inactive * size
        + speculative * size + purgeable * size) by (nonlinear_arith);
}

proof fn lemma_leading_digits(number: Seq<char>, after: Seq<char>)
    requires
        forall|i: int| 0 <= i < number.len() ==> is_digit(#[trigger] number[i]),
        after.len() == 0 || !is_digit(after[0]),
    ensures
        leading_digits(number + after) == number,
    decreases number.len(),
{
    if number.len() == 0 {
        assert(number + after =~= after);
        assert(leading_digits(after) =~= number);
    } else {
        let rest = number.skip(1);
        lemma_leading_digits(rest, after);
        assert((number + after).skip(1) =~= rest + after);
        assert(seq![number[0]] + rest =~= number);
    }
}

proof fn lemma_behind(before: Seq<char>, key: Seq<char>, rest: Seq<char>)
    requires
        forall|at: int|
            0 <= at < before.len() ==> !#[trigger] occurs_at(before + key + rest, key, at),
    ensures
        first_from(before + key + rest, key, 0) == Some(before.len() as int),
        (before + key + rest).skip((before.len() + key.len()) as int) == rest,
{
    let text = before + key + rest;
    let at = before.len() as int;
    assert(text.subrange(at, at + key.len()) =~= key);
    assert(occurs_at(text, key, at));
    law_the_first_place_is_found(text, key, 0);
    let found = first_from(text, key, 0)->0;
    assert(occurs_at(text, key, found));
    assert(text.skip(at + key.len()) =~= rest);
}

/// What a Mac's GPU has in use is the number behind the first `"In use system memory"=`.
pub proof fn law_memory_in_use_is_behind_its_name(before: Seq<char>, n: nat, after: Seq<char>)
    requires
        n <= u64::MAX,
        after.len() == 0 || !is_digit(after[0]),
        forall|at: int|
            0 <= at < before.len() ==> !#[trigger] occurs_at(
                before + "\"In use system memory\"="@ + digits(n) + after,
                "\"In use system memory\"="@,
                at,
            ),
    ensures
        in_use_counter(before + "\"In use system memory\"="@ + digits(n) + after) == Some(n),
{
    let key = "\"In use system memory\"="@;
    let rest = digits(n) + after;
    assert(before + key + digits(n) + after =~= before + key + rest);
    lemma_behind(before, key, rest);
    crate::number::law_digits_are_read_back(n);
    crate::number::law_numbers_are_read(n, u64::MAX as nat);
    lemma_leading_digits(digits(n), after);
}

/// The page size is the number behind `page size of ` in the first line.
pub proof fn law_a_page_size_is_in_the_first_line(
    text: Seq<char>,
    before: Seq<char>,
    n: nat,
    rest: Seq<char>,
)
    requires
        n <= u64::MAX,
        pieces(text, '\n')[0] == before + "page size of "@ + (digits(n).push(' ') + rest),
        forall|at: int|
            0 <= at < before.len() ==> !#[trigger] occurs_at(
                before + "page size of "@ + (digits(n).push(' ') + rest),
                "page size of "@,
                at,
            ),
        forall|at: int|
            0 <= at ==> !#[trigger] occurs_at(
                digits(n).push(' ') + rest,
                "page size of "@,
                at,
            ),
    ensures
        page_size(text) == Some(n),
{
    let mark = "page size of "@;
    let tail = digits(n).push(' ') + rest;
    lemma_behind(before, mark, tail);
    law_the_first_place_is_found(tail, mark, 0);
    if first_from(tail, mark, 0) is Some {
        assert(occurs_at(tail, mark, first_from(tail, mark, 0)->0));
    }
    let line = before + mark + tail;
    assert(line.skip(before.len() + mark.len() as int) == tail);
    assert(after_mark(line, mark) == Some(tail));
    crate::number::law_digits_are_read_back(n);
    crate::number::law_numbers_are_read(n, u64::MAX as nat);
    let own = digits(n);
    let separator = |c: char| crate::text::is_space(c);
    let behind = seq![' '] + rest;
    assert forall|i: int| 0 <= i < own.len() implies !separator(#[trigger] own[i]) by {
        assert(is_digit(own[i]));
    }
    crate::text::law_a_run_is_a_field(Seq::empty(), own, behind, separator);
    assert(Seq::<char>::empty() + own + behind =~= tail);
    assert(words(tail)[0] == own);
}

/// The amount of some kB, in millionths of one, is right to within half a unit.
pub proof fn law_kilobytes_are_counted_to_the_unit(millionths: int)
    requires
        -9_000_000_000_000_000_000_000 <= millionths <= 9_000_000_000_000_000_000_000,
    ensures
        -1_024 <= 2 * (kilobytes_amount(millionths) * 1_024 - millionths) <= 1_024,
{
    let size = magnitude(millionths);
    assert(size == (size / 1024) * 1024 + size % 1024);
}

} // verus!
