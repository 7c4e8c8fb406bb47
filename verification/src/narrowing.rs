//! Caps on how many models may be resident at once: packs that hold more are split into parts
//! that do not. A part of a pack that fits fits too, so less is declared and never more.

use vstd::prelude::*;

use crate::laws::{law_found_packs_declare_every_fit, law_found_packs_fit};
use crate::packing::{
    ascending, covers, fits, law_a_part_takes_no_more, maximal_pack, pack_total, set_total,
    MAX_PACKS,
};
use crate::plan::{found_in, within_cap, Found};

verus! {

// ---- what is left of a pack -----------------------------------------------------------------

/// The units of a pack at these positions in it.
pub open spec fn part(pack: Seq<usize>, chosen: Seq<usize>) -> Seq<usize> {
    Seq::new(chosen.len(), |i: int| pack[chosen[i] as int])
}

/// What each unit of a pack counts.
pub open spec fn counts_of(weights: Seq<int>, pack: Seq<usize>) -> Seq<int> {
    Seq::new(pack.len(), |i: int| weights[pack[i] as int])
}

/// The largest parts of a pack that count no more than the limit.
pub open spec fn parts_within(weights: Seq<int>, limit: int, pack: Seq<usize>) -> Found {
    let found = found_in(counts_of(weights, pack), limit);
    Found {
        packs: Seq::new(found.packs.len(), |i: int| part(pack, found.packs[i])),
        complete: found.complete,
    }
}

/// Some packs with one more, unless it is among them or there are too many already.
pub open spec fn with_pack(found: Found, pack: Seq<usize>) -> Found {
    if found.packs.contains(pack) {
        found
    } else if found.packs.len() >= MAX_PACKS {
        Found { complete: false, ..found }
    } else {
        Found { packs: found.packs.push(pack), ..found }
    }
}

/// Some packs with the first `bound` of others.
pub open spec fn with_packs(found: Found, packs: Seq<Seq<usize>>, bound: nat) -> Found
    decreases bound,
{
    if bound == 0 {
        found
    } else {
        with_pack(with_packs(found, packs, (bound - 1) as nat), packs[bound - 1])
    }
}

/// The parts of the first `bound` packs that count no more than the limit, each once.
pub open spec fn narrowed(found: Found, weights: Seq<int>, limit: int, bound: nat) -> Found
    decreases bound,
{
    if bound == 0 {
        Found { packs: Seq::empty(), complete: found.complete }
    } else {
        let before = narrowed(found, weights, limit, (bound - 1) as nat);
        let parts = parts_within(weights, limit, found.packs[bound - 1]);
        with_packs(
            Found { complete: before.complete && parts.complete, ..before },
            parts.packs,
            parts.packs.len(),
        )
    }
}

/// The packs that keep within a cap, where there is one.
pub open spec fn held_to(found: Found, weights: Seq<int>, cap: Option<int>) -> Found {
    match cap {
        Some(limit) => narrowed(found, weights, limit, found.packs.len()),
        None => found,
    }
}

// ---- what narrowing keeps -------------------------------------------------------------------

/// `inner` is a part of one of some packs, and counts no more than the limit.
pub open spec fn part_of_one(
    packs: Seq<Seq<usize>>,
    weights: Seq<int>,
    limit: int,
    inner: Seq<usize>,
) -> bool {
    exists|j: int|
        0 <= j < packs.len() && #[trigger] is_part(packs[j], inner) && pack_total(weights, inner)
            <= limit
}

/// Some units of a pack, in order.
pub open spec fn is_part(pack: Seq<usize>, inner: Seq<usize>) -> bool {
    &&& inner.len() > 0
    &&& forall|i: int, j: int| 0 <= i < j < inner.len() ==> inner[i] < inner[j]
    &&& forall|i: int| 0 <= i < inner.len() ==> pack.contains(#[trigger] inner[i])
}

proof fn lemma_part_total(weights: Seq<int>, pack: Seq<usize>, chosen: Seq<usize>)
    requires
        forall|i: int| 0 <= i < chosen.len() ==> #[trigger] chosen[i] < pack.len(),
    ensures
        pack_total(weights, part(pack, chosen)) == pack_total(counts_of(weights, pack), chosen),
    decreases chosen.len(),
{
    if chosen.len() > 0 {
        let fewer = chosen.drop_last();
        assert forall|i: int| 0 <= i < fewer.len() implies #[trigger] fewer[i] < pack.len() by {
            assert(fewer[i] == chosen[i]);
        }
        lemma_part_total(weights, pack, fewer);
        assert(part(pack, chosen).drop_last() =~= part(pack, fewer));
        assert(chosen[chosen.len() - 1] < pack.len());
    }
}

/// A part of a pack that narrowing finds is a part, and within the limit.
pub(crate) proof fn lemma_parts_within(weights: Seq<int>, limit: int, pack: Seq<usize>, bound: int, k: int)
    requires
        ascending(pack, bound),
        pack.len() <= usize::MAX,
        0 <= k < parts_within(weights, limit, pack).packs.len(),
    ensures
        is_part(pack, parts_within(weights, limit, pack).packs[k]),
        pack_total(weights, parts_within(weights, limit, pack).packs[k]) <= limit,
{
    let counts = counts_of(weights, pack);
    let chosen = found_in(counts, limit).packs[k];
    law_found_packs_fit(counts, limit);
    assert(maximal_pack(counts, limit, chosen));
    let inner = part(pack, chosen);
    assert forall|i: int| 0 <= i < chosen.len() implies #[trigger] chosen[i] < pack.len() by {}
    lemma_part_total(weights, pack, chosen);
    assert forall|i: int, j: int| 0 <= i < j < inner.len() implies inner[i] < inner[j] by {
        assert(chosen[i] < chosen[j]);
        assert(chosen[j] < pack.len());
        assert(pack[chosen[i] as int] < pack[chosen[j] as int]);
    }
    assert forall|i: int| 0 <= i < inner.len() implies pack.contains(#[trigger] inner[i]) by {
        assert(chosen[i] < pack.len());
        assert(pack[chosen[i] as int] == inner[i]);
    }
}

proof fn lemma_with_packs(
    found: Found,
    packs: Seq<Seq<usize>>,
    bound: nat,
    all: Seq<Seq<usize>>,
    weights: Seq<int>,
    limit: int,
)
    requires
        bound <= packs.len(),
        forall|k: int|
            0 <= k < found.packs.len() ==> part_of_one(all, weights, limit, #[trigger] found.packs[k]),
        forall|k: int|
            0 <= k < packs.len() ==> part_of_one(all, weights, limit, #[trigger] packs[k]),
    ensures
        forall|k: int|
            0 <= k < with_packs(found, packs, bound).packs.len() ==> part_of_one(
                all,
                weights,
                limit,
                #[trigger] with_packs(found, packs, bound).packs[k],
            ),
        found.packs.len() <= MAX_PACKS ==> with_packs(found, packs, bound).packs.len() <= MAX_PACKS,
    decreases bound,
{
    if bound > 0 {
        lemma_with_packs(found, packs, (bound - 1) as nat, all, weights, limit);
        let before = with_packs(found, packs, (bound - 1) as nat);
        let after = with_packs(found, packs, bound);
        assert forall|k: int| 0 <= k < after.packs.len() implies part_of_one(
            all,
            weights,
            limit,
            #[trigger] after.packs[k],
        ) by {
            if k < before.packs.len() {
                assert(after.packs[k] == before.packs[k]);
            } else {
                assert(after.packs[k] == packs[bound - 1]);
            }
        }
    }
}

/// Every pack that is left is a part of one that there was, and counts no more than the limit.
pub proof fn law_narrowed_packs_are_parts(
    found: Found,
    weights: Seq<int>,
    limit: int,
    bound: nat,
    units: int,
)
    requires
        bound <= found.packs.len(),
        forall|k: int|
            0 <= k < found.packs.len() ==> ascending(#[trigger] found.packs[k], units)
                && found.packs[k].len() <= usize::MAX,
    ensures
        forall|k: int|
            0 <= k < narrowed(found, weights, limit, bound).packs.len() ==> part_of_one(
                found.packs,
                weights,
                limit,
                #[trigger] narrowed(found, weights, limit, bound).packs[k],
            ),
        narrowed(found, weights, limit, bound).packs.len() <= MAX_PACKS,
    decreases bound,
{
    if bound > 0 {
        law_narrowed_packs_are_parts(found, weights, limit, (bound - 1) as nat, units);
        let before = narrowed(found, weights, limit, (bound - 1) as nat);
        let pack = found.packs[bound - 1];
        let parts = parts_within(weights, limit, pack);
        assert(ascending(pack, units));
        assert forall|k: int| 0 <= k < parts.packs.len() implies part_of_one(
            found.packs,
            weights,
            limit,
            #[trigger] parts.packs[k],
        ) by {
            lemma_parts_within(weights, limit, pack, units, k);
            assert(is_part(found.packs[bound - 1], parts.packs[k]));
        }
        let start = Found { complete: before.complete && parts.complete, ..before };
        lemma_with_packs(start, parts.packs, parts.packs.len(), found.packs, weights, limit);
    }
}

/// A part of an ascending pack ascends, and takes no more than the pack.
pub proof fn law_a_part_fits(
    sizes: Seq<int>,
    packs: Seq<Seq<usize>>,
    weights: Seq<int>,
    limit: int,
    most: int,
    inner: Seq<usize>,
)
    requires
        sizes.len() <= usize::MAX,
        forall|i: int| 0 <= i < sizes.len() ==> sizes[i] >= 0,
        part_of_one(packs, weights, limit, inner),
        forall|k: int|
            0 <= k < packs.len() ==> ascending(#[trigger] packs[k], sizes.len() as int)
                && pack_total(sizes, packs[k]) <= most,
    ensures
        ascending(inner, sizes.len() as int),
        inner.len() > 0,
        pack_total(sizes, inner) <= most,
        pack_total(weights, inner) <= limit,
{
    let j = choose|j: int|
        0 <= j < packs.len() && #[trigger] is_part(packs[j], inner) && pack_total(weights, inner)
            <= limit;
    let pack = packs[j];
    assert(ascending(pack, sizes.len() as int));
    assert forall|i: int| 0 <= i < inner.len() implies #[trigger] inner[i] < sizes.len() by {
        assert(pack.contains(inner[i]));
        let m = choose|m: int| 0 <= m < pack.len() && pack[m] == inner[i];
        assert(pack[m] < sizes.len());
    }
    assert forall|u: usize| #[trigger] inner.contains(u) implies pack.contains(u) by {
        let i = choose|i: int| 0 <= i < inner.len() && inner[i] == u;
        assert(pack.contains(inner[i]));
    }
    law_a_part_takes_no_more(sizes, inner, pack);
}

// ---- narrowing misses nothing ---------------------------------------------------------------

/// Where in a pack the units of a set are.
spec fn places_in(pack: Seq<usize>, units: Set<usize>) -> Set<usize> {
    Set::new(|i: usize| i < pack.len() && units.contains(pack[i as int]))
}

/// How many units of an ascending pack are below a bound.
spec fn below(pack: Seq<usize>, bound: nat) -> nat
    decreases bound,
{
    if bound == 0 {
        0
    } else {
        let before = below(pack, (bound - 1) as nat);
        if before < pack.len() && pack[before as int] == bound - 1 {
            before + 1
        } else {
            before
        }
    }
}

proof fn lemma_below(pack: Seq<usize>, units: int, bound: nat)
    requires
        ascending(pack, units),
        bound <= units <= usize::MAX,
    ensures
        below(pack, bound) <= pack.len(),
        forall|i: int| 0 <= i < below(pack, bound) ==> #[trigger] pack[i] < bound,
        forall|i: int| below(pack, bound) <= i < pack.len() ==> #[trigger] pack[i] >= bound,
    decreases bound,
{
    if bound > 0 {
        lemma_below(pack, units, (bound - 1) as nat);
        let before = below(pack, (bound - 1) as nat);
        if before < pack.len() {
            if pack[before as int] != bound - 1 {
                assert forall|i: int| before <= i < pack.len() implies #[trigger] pack[i] >= bound by {
                    if i > before {
                        assert(pack[before as int] < pack[i]);
                    }
                }
            } else {
                assert forall|i: int| before + 1 <= i < pack.len() implies #[trigger] pack[i]
                    >= bound by {
                    assert(pack[before as int] < pack[i]);
                }
            }
        }
    }
}

proof fn lemma_places_total(
    weights: Seq<int>,
    pack: Seq<usize>,
    units: Set<usize>,
    bound: nat,
)
    requires
        weights.len() <= usize::MAX,
        ascending(pack, weights.len() as int),
        covers(pack, units),
        bound <= weights.len(),
    ensures
        set_total(counts_of(weights, pack), places_in(pack, units), below(pack, bound))
            == set_total(weights, units, bound),
    decreases bound,
{
    if bound > 0 {
        lemma_places_total(weights, pack, units, (bound - 1) as nat);
        lemma_below(pack, weights.len() as int, (bound - 1) as nat);
        let before = below(pack, (bound - 1) as nat);
        let unit = (bound - 1) as usize;
        if before < pack.len() && pack[before as int] == unit {
            lemma_pack_is_short(pack, weights.len() as int, before as int);
            assert(places_in(pack, units).contains(before as usize) == units.contains(unit));
            assert(counts_of(weights, pack)[before as int] == weights[unit as int]);
        } else {
            if units.contains(unit) {
                assert(pack.contains(unit));
                let m = choose|m: int| 0 <= m < pack.len() && pack[m] == unit;
                assert(m >= before);
                if m > before {
                    assert(pack[before as int] < pack[m]);
                }
            }
        }
    }
}

/// An ascending pack holds no more units than there are.
pub proof fn lemma_packs_are_short(pack: Seq<usize>, bound: int)
    requires
        ascending(pack, bound),
        0 <= bound,
    ensures
        pack.len() <= bound,
{
    if pack.len() > 0 {
        lemma_pack_is_short(pack, bound, pack.len() - 1);
    }
}

/// A part of an ascending pack ascends.
pub proof fn lemma_parts_ascend(
    packs: Seq<Seq<usize>>,
    weights: Seq<int>,
    limit: int,
    inner: Seq<usize>,
    bound: int,
)
    requires
        part_of_one(packs, weights, limit, inner),
        forall|k: int| 0 <= k < packs.len() ==> ascending(#[trigger] packs[k], bound),
    ensures
        ascending(inner, bound),
        inner.len() > 0,
        pack_total(weights, inner) <= limit,
{
    let j = choose|j: int|
        0 <= j < packs.len() && #[trigger] is_part(packs[j], inner) && pack_total(weights, inner)
            <= limit;
    let pack = packs[j];
    assert(ascending(pack, bound));
    assert forall|i: int| 0 <= i < inner.len() implies #[trigger] inner[i] < bound by {
        assert(pack.contains(inner[i]));
        let m = choose|m: int| 0 <= m < pack.len() && pack[m] == inner[i];
        assert(pack[m] < bound);
    }
}

proof fn lemma_pack_is_short(pack: Seq<usize>, bound: int, i: int)
    requires
        ascending(pack, bound),
        0 <= i < pack.len(),
    ensures
        pack[i] >= i,
        i < bound,
    decreases i,
{
    if i > 0 {
        lemma_pack_is_short(pack, bound, i - 1);
        assert(pack[i - 1] < pack[i]);
    }
}

/// A combination within the limit that a pack covers is covered by one of its parts.
proof fn lemma_a_part_covers(
    weights: Seq<int>,
    limit: int,
    pack: Seq<usize>,
    units: Set<usize>,
) -> (k: int)
    requires
        weights.len() <= usize::MAX,
        forall|i: int| 0 <= i < weights.len() ==> weights[i] >= 0,
        ascending(pack, weights.len() as int),
        covers(pack, units),
        set_total(weights, units, weights.len()) <= limit,
        exists|u: usize| units.contains(u),
        parts_within(weights, limit, pack).complete,
    ensures
        0 <= k < parts_within(weights, limit, pack).packs.len(),
        covers(parts_within(weights, limit, pack).packs[k], units),
{
    let counts = counts_of(weights, pack);
    let places = places_in(pack, units);
    lemma_places_total(weights, pack, units, weights.len());
    lemma_below(pack, weights.len() as int, weights.len());
    if below(pack, weights.len()) < pack.len() {
        assert(pack[below(pack, weights.len()) as int] < weights.len());
    }
    if pack.len() > 0 {
        lemma_pack_is_short(pack, weights.len() as int, pack.len() - 1);
    }
    assert(fits(counts, limit, places));
    let u = choose|u: usize| units.contains(u);
    assert(pack.contains(u));
    let m = choose|m: int| 0 <= m < pack.len() && pack[m] == u;
    assert(places.contains(m as usize));
    assert forall|i: int| 0 <= i < counts.len() implies counts[i] >= 0 by {
        assert(pack[i] < weights.len());
    }
    law_found_packs_declare_every_fit(counts, limit, places);
    let found = found_in(counts, limit).packs;
    let k = choose|k: int| 0 <= k < found.len() && covers(#[trigger] found[k], places);
    assert forall|v: usize| #[trigger] units.contains(v) implies part(pack, found[k]).contains(v) by {
        assert(pack.contains(v));
        let n = choose|n: int| 0 <= n < pack.len() && pack[n] == v;
        assert(places.contains(n as usize));
        assert(found[k].contains(n as usize));
        let at = choose|at: int| 0 <= at < found[k].len() && found[k][at] == n as usize;
        assert(part(pack, found[k])[at] == v);
    }
    k
}

proof fn lemma_with_packs_holds(found: Found, packs: Seq<Seq<usize>>, bound: nat)
    requires
        bound <= packs.len(),
    ensures
        with_packs(found, packs, bound).complete ==> found.complete,
        forall|k: int|
            0 <= k < found.packs.len() ==> with_packs(found, packs, bound).packs.contains(
                #[trigger] found.packs[k],
            ),
        with_packs(found, packs, bound).complete ==> forall|k: int|
            0 <= k < bound ==> with_packs(found, packs, bound).packs.contains(#[trigger] packs[k]),
    decreases bound,
{
    let after = with_packs(found, packs, bound);
    if bound > 0 {
        lemma_with_packs_holds(found, packs, (bound - 1) as nat);
        let before = with_packs(found, packs, (bound - 1) as nat);
        assert forall|p: Seq<usize>| #[trigger] before.packs.contains(p) implies after.packs.contains(
            p,
        ) by {
            let i = choose|i: int| 0 <= i < before.packs.len() && before.packs[i] == p;
            assert(after.packs[i] == p);
        }
        if after.complete {
            assert(before.complete);
            if !before.packs.contains(packs[bound - 1]) {
                assert(after.packs[before.packs.len() as int] == packs[bound - 1]);
            }
        }
    } else {
        assert forall|k: int| 0 <= k < found.packs.len() implies after.packs.contains(
            #[trigger] found.packs[k],
        ) by {}
    }
}

/// A complete narrowing misses nothing: every combination within the limit that a pack covers
/// is covered by a pack that is left.
pub proof fn law_narrowing_keeps_what_is_within(
    found: Found,
    weights: Seq<int>,
    limit: int,
    bound: nat,
    units: Set<usize>,
    j: int,
) -> (k: int)
    requires
        0 <= j < bound <= found.packs.len(),
        weights.len() <= usize::MAX,
        forall|i: int| 0 <= i < weights.len() ==> weights[i] >= 0,
        forall|i: int|
            0 <= i < found.packs.len() ==> ascending(
                #[trigger] found.packs[i],
                weights.len() as int,
            ),
        covers(found.packs[j], units),
        set_total(weights, units, weights.len()) <= limit,
        exists|u: usize| units.contains(u),
        narrowed(found, weights, limit, bound).complete,
    ensures
        found.complete,
        0 <= k < narrowed(found, weights, limit, bound).packs.len(),
        covers(narrowed(found, weights, limit, bound).packs[k], units),
    decreases bound,
{
    let before = narrowed(found, weights, limit, (bound - 1) as nat);
    let pack = found.packs[bound - 1];
    let parts = parts_within(weights, limit, pack);
    let start = Found { complete: before.complete && parts.complete, ..before };
    let after = narrowed(found, weights, limit, bound);
    lemma_with_packs_holds(start, parts.packs, parts.packs.len());
    lemma_complete(found, weights, limit, (bound - 1) as nat);
    let pick = if j < bound - 1 {
        let m = law_narrowing_keeps_what_is_within(
            found,
            weights,
            limit,
            (bound - 1) as nat,
            units,
            j,
        );
        assert(start.packs[m] == before.packs[m]);
        before.packs[m]
    } else {
        assert(ascending(found.packs[j], weights.len() as int));
        let m = lemma_a_part_covers(weights, limit, pack, units);
        parts.packs[m]
    };
    assert(after.packs.contains(pick));
    choose|k: int| 0 <= k < after.packs.len() && after.packs[k] == pick
}

proof fn lemma_complete(found: Found, weights: Seq<int>, limit: int, bound: nat)
    requires
        bound <= found.packs.len(),
        narrowed(found, weights, limit, bound).complete,
    ensures
        found.complete,
    decreases bound,
{
    if bound > 0 {
        let before = narrowed(found, weights, limit, (bound - 1) as nat);
        let parts = parts_within(weights, limit, found.packs[bound - 1]);
        lemma_with_packs_holds(
            Found { complete: before.complete && parts.complete, ..before },
            parts.packs,
            parts.packs.len(),
        );
        lemma_complete(found, weights, limit, (bound - 1) as nat);
    }
}

// ---- packs held to a cap --------------------------------------------------------------------

/// Packs of at least one unit, in order, that fit.
pub open spec fn all_fit(packs: Seq<Seq<usize>>, sizes: Seq<int>, limit: int) -> bool {
    forall|k: int|
        0 <= k < packs.len() ==> ascending(#[trigger] packs[k], sizes.len() as int)
            && packs[k].len() > 0 && pack_total(sizes, packs[k]) <= limit
}

/// Packs that are held to a cap keep within it, and go on fitting whatever they fitted.
pub proof fn law_held_packs_fit(
    found: Found,
    weights: Seq<int>,
    cap: Option<int>,
    sizes: Seq<int>,
    limit: int,
)
    requires
        sizes.len() == weights.len() <= usize::MAX,
        forall|i: int| 0 <= i < sizes.len() ==> sizes[i] >= 0,
        all_fit(found.packs, sizes, limit),
    ensures
        all_fit(held_to(found, weights, cap).packs, sizes, limit),
        cap is Some ==> all_fit(held_to(found, weights, cap).packs, weights, cap->0),
{
    if let Some(most) = cap {
        let after = held_to(found, weights, cap);
        assert forall|k: int| 0 <= k < found.packs.len() implies ascending(
            #[trigger] found.packs[k],
            weights.len() as int,
        ) && found.packs[k].len() <= usize::MAX by {
            assert(ascending(found.packs[k], sizes.len() as int));
            lemma_packs_are_short(found.packs[k], weights.len() as int);
        }
        law_narrowed_packs_are_parts(
            found,
            weights,
            most,
            found.packs.len(),
            weights.len() as int,
        );
        assert forall|k: int| 0 <= k < after.packs.len() implies ascending(
            #[trigger] after.packs[k],
            sizes.len() as int,
        ) && after.packs[k].len() > 0 && pack_total(sizes, after.packs[k]) <= limit && pack_total(
            weights,
            after.packs[k],
        ) <= most by {
            assert(part_of_one(found.packs, weights, most, after.packs[k]));
            law_a_part_fits(sizes, found.packs, weights, most, limit, after.packs[k]);
        }
    }
}

/// A combination within the cap that a pack covers is still covered, if nothing was cut short.
pub proof fn law_held_packs_cover(
    found: Found,
    weights: Seq<int>,
    cap: Option<int>,
    units: Set<usize>,
    j: int,
) -> (k: int)
    requires
        0 <= j < found.packs.len(),
        weights.len() <= usize::MAX,
        forall|i: int| 0 <= i < weights.len() ==> weights[i] >= 0,
        forall|i: int|
            0 <= i < found.packs.len() ==> ascending(
                #[trigger] found.packs[i],
                weights.len() as int,
            ),
        covers(found.packs[j], units),
        within_cap(cap, set_total(weights, units, weights.len())),
        exists|u: usize| units.contains(u),
        held_to(found, weights, cap).complete,
    ensures
        found.complete,
        0 <= k < held_to(found, weights, cap).packs.len(),
        covers(held_to(found, weights, cap).packs[k], units),
{
    match cap {
        Some(limit) => law_narrowing_keeps_what_is_within(
            found,
            weights,
            limit,
            found.packs.len(),
            units,
            j,
        ),
        None => j,
    }
}

/// Only a complete search stays one.
pub proof fn law_held_completes(found: Found, weights: Seq<int>, cap: Option<int>)
    requires
        held_to(found, weights, cap).complete,
    ensures
        found.complete,
{
    if let Some(limit) = cap {
        lemma_complete(found, weights, limit, found.packs.len());
    }
}

} // verus!
