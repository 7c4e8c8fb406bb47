//! The knapsack: which combinations of units fit a limit together.
//!
//! Only *maximal* packs are enumerated, those that no further unit can join. Any subset
//! of a declared set may be resident, so the maximal packs declare everything that fits.

use vstd::prelude::*;

use crate::text::{lemma_views_push, views};

verus! {

/// How many nodes the enumeration may visit. Its worst case is exponential in the number
/// of units, so past this many it stops short instead of hanging: a smaller declaration
/// is always safe.
pub const ENUM_NODE_BUDGET: usize = 5_000_000;

/// How many packs the enumeration may find. A real matrix has tens; past this many the
/// block would be unusable, so the enumeration stops short.
pub const MAX_PACKS: usize = 1024;

/// The values of a list of sizes.
pub open spec fn ints(sizes: Seq<i64>) -> Seq<int> {
    Seq::new(sizes.len(), |i: int| sizes[i] as int)
}

// ---- what a pack is ---------------------------------------------------------------

/// What the units of `pack` take together.
pub open spec fn pack_total(sizes: Seq<int>, pack: Seq<usize>) -> int
    decreases pack.len(),
{
    if pack.len() == 0 {
        0
    } else {
        pack_total(sizes, pack.drop_last()) + sizes[pack.last() as int]
    }
}

/// No unit outside `pack` still fits beside it.
pub open spec fn nothing_addable(sizes: Seq<int>, limit: int, pack: Seq<usize>) -> bool {
    forall|i: usize|
        i < sizes.len() && !pack.contains(i) ==> pack_total(sizes, pack) + #[trigger] sizes[i as int]
            > limit
}

/// Distinct positions below `bound`, in ascending order.
pub open spec fn ascending(pack: Seq<usize>, bound: int) -> bool {
    &&& forall|i: int, j: int| 0 <= i < j < pack.len() ==> pack[i] < pack[j]
    &&& forall|i: int| 0 <= i < pack.len() ==> #[trigger] pack[i] < bound
}

/// A maximal pack: some units, in order, that fit together and that no other unit can
/// join.
pub open spec fn maximal_pack(sizes: Seq<int>, limit: int, pack: Seq<usize>) -> bool {
    &&& pack.len() > 0
    &&& ascending(pack, sizes.len() as int)
    &&& pack_total(sizes, pack) <= limit
    &&& nothing_addable(sizes, limit, pack)
}

// ---- the enumeration --------------------------------------------------------------

/// A depth-first enumeration under way.
pub struct Walk {
    /// Nodes that may still be visited.
    pub nodes: nat,
    /// Maximal packs found so far.
    pub packs: Seq<Seq<usize>>,
    /// Whether neither limit has been met.
    pub complete: bool,
}

/// Visit the pack `chosen` and every fitting extension of it by units from `start` on.
pub open spec fn visit(
    sizes: Seq<int>,
    limit: int,
    start: nat,
    chosen: Seq<usize>,
    walk: Walk,
) -> Walk
    decreases sizes.len() - start, 1nat,
{
    if walk.nodes == 0 || walk.packs.len() >= MAX_PACKS || start > sizes.len() {
        Walk { complete: false, ..walk }
    } else {
        let found = nothing_addable(sizes, limit, chosen) && chosen.len() > 0;
        extend(
            sizes,
            limit,
            start,
            chosen,
            Walk {
                nodes: (walk.nodes - 1) as nat,
                packs: if found {
                    walk.packs.push(chosen)
                } else {
                    walk.packs
                },
                complete: true,
            },
        )
    }
}

/// Visit the extensions of `chosen` by one unit from `index` on, each with its own.
pub open spec fn extend(
    sizes: Seq<int>,
    limit: int,
    index: nat,
    chosen: Seq<usize>,
    walk: Walk,
) -> Walk
    decreases sizes.len() - index, 0nat,
{
    if index >= sizes.len() {
        walk
    } else if pack_total(sizes, chosen) + sizes[index as int] <= limit {
        let below = visit(sizes, limit, index + 1, chosen.push(index as usize), walk);
        if below.complete {
            extend(sizes, limit, index + 1, chosen, below)
        } else {
            below
        }
    } else {
        extend(sizes, limit, index + 1, chosen, walk)
    }
}

/// The whole enumeration, from the empty pack.
pub open spec fn full_walk(sizes: Seq<int>, limit: int) -> Walk {
    visit(
        sizes,
        limit,
        0,
        Seq::empty(),
        Walk { nodes: ENUM_NODE_BUDGET as nat, packs: Seq::empty(), complete: true },
    )
}

fn holds(pack: &Vec<usize>, unit: usize) -> (r: bool)
    ensures
        r == pack@.contains(unit),
{
    let mut at: usize = 0;
    while at < pack.len()
        invariant
            at <= pack@.len(),
            forall|i: int| 0 <= i < at ==> pack@[i] != unit,
        decreases pack@.len() - at,
    {
        if pack[at] == unit {
            return true;
        }
        at = at + 1;
    }
    false
}

fn is_maximal(sizes: &Vec<i64>, limit: i128, pack: &Vec<usize>, running_total: i128) -> (r: bool)
    requires
        running_total == pack_total(ints(sizes@), pack@),
        0 <= running_total < 0x4000_0000_0000_0000_0000_0000_0000_0000,
    ensures
        r == nothing_addable(ints(sizes@), limit as int, pack@),
{
    let mut at: usize = 0;
    while at < sizes.len()
        invariant
            at <= sizes@.len(),
            running_total == pack_total(ints(sizes@), pack@),
            0 <= running_total < 0x4000_0000_0000_0000_0000_0000_0000_0000,
            forall|i: usize|
                i < at && !pack@.contains(i) ==> running_total + #[trigger] ints(sizes@)[i as int] > limit,
        decreases sizes@.len() - at,
    {
        if !holds(pack, at) && running_total + sizes[at] as i128 <= limit {
            proof {
                assert(ints(sizes@)[at as int] == sizes@[at as int]);
            }
            return false;
        }
        at = at + 1;
    }
    true
}

fn copied(pack: &Vec<usize>) -> (r: Vec<usize>)
    ensures
        r@ == pack@,
{
    let mut r: Vec<usize> = Vec::new();
    let mut at: usize = 0;
    while at < pack.len()
        invariant
            at <= pack@.len(),
            r@ == pack@.take(at as int),
        decreases pack@.len() - at,
    {
        r.push(pack[at]);
        at = at + 1;
        proof {
            assert(pack@.take(at as int) =~= pack@.take(at - 1).push(pack@[at - 1]));
        }
    }
    proof {
        assert(pack@.take(at as int) =~= pack@);
    }
    r
}

/// Enumerate the maximal fitting packs that extend `chosen` by units from `start` on.
///
/// `running_total` is what `chosen` takes already. Returns whether the walk completed:
/// `node_budget` bounds the nodes it visits and [`MAX_PACKS`] the packs it finds, and it
/// stops as soon as either is met. What it found by then is still maximal and fitting.
pub fn enumerate_maximal_packs(
    start: usize,
    chosen: &mut Vec<usize>,
    running_total: i128,
    sizes: &Vec<i64>,
    limit: i128,
    node_budget: &mut usize,
    results: &mut Vec<Vec<usize>>,
) -> (completed: bool)
    requires
        start <= sizes@.len(),
        forall|i: int| 0 <= i < sizes@.len() ==> sizes@[i] >= 0,
        running_total == pack_total(ints(sizes@), old(chosen)@),
        0 <= running_total,
        running_total <= limit || old(chosen)@.len() == 0,
        limit < 0x2000_0000_0000_0000_0000_0000_0000_0000,
    ensures
        final(chosen)@ == old(chosen)@,
        ({
            let walk = visit(
                ints(sizes@),
                limit as int,
                start as nat,
                old(chosen)@,
                Walk { nodes: *old(node_budget) as nat, packs: views(old(results)@), complete: true },
            );
            &&& completed == walk.complete
            &&& *final(node_budget) == walk.nodes
            &&& views(final(results)@) == walk.packs
        }),
    decreases sizes@.len() - start,
{
    if *node_budget == 0 || results.len() >= MAX_PACKS {
        return false;
    }
    *node_budget = *node_budget - 1;
    let ghost pack = chosen@;
    if is_maximal(sizes, limit, chosen, running_total) && chosen.len() > 0 {
        let found = copied(chosen);
        proof {
            lemma_views_push(results@, found);
        }
        results.push(found);
    }
    let ghost entered = Walk { nodes: *node_budget as nat, packs: views(results@), complete: true };
    let ghost whole = extend(ints(sizes@), limit as int, start as nat, pack, entered);
    let mut index: usize = start;
    while index < sizes.len()
        invariant
            start <= index <= sizes@.len(),
            chosen@ == pack,
            pack == old(chosen)@,
            running_total == pack_total(ints(sizes@), pack),
            0 <= running_total,
            running_total <= limit || pack.len() == 0,
            limit < 0x2000_0000_0000_0000_0000_0000_0000_0000,
            forall|i: int| 0 <= i < sizes@.len() ==> sizes@[i] >= 0,
            whole == visit(
                ints(sizes@),
                limit as int,
                start as nat,
                pack,
                Walk { nodes: *old(node_budget) as nat, packs: views(old(results)@), complete: true },
            ),
            whole == extend(
                ints(sizes@),
                limit as int,
                index as nat,
                pack,
                Walk { nodes: *node_budget as nat, packs: views(results@), complete: true },
            ),
        decreases sizes@.len() - index,
    {
        if running_total + sizes[index] as i128 <= limit {
            chosen.push(index);
            proof {
                assert(chosen@.drop_last() =~= pack);
            }
            let completed = enumerate_maximal_packs(
                index + 1,
                chosen,
                running_total + sizes[index] as i128,
                sizes,
                limit,
                node_budget,
                results,
            );
            chosen.pop();
            proof {
                assert(chosen@ =~= pack);
            }
            if !completed {
                return false;
            }
        }
        index = index + 1;
    }
    true
}

// ---- what the enumeration finds -----------------------------------------------------

/// Every pack of a list is maximal.
pub open spec fn all_maximal(sizes: Seq<int>, limit: int, packs: Seq<Seq<usize>>) -> bool {
    forall|i: int| 0 <= i < packs.len() ==> #[trigger] maximal_pack(sizes, limit, packs[i])
}

/// Every pack that the enumeration finds is maximal, whether or not it completes, and it
/// never finds more than [`MAX_PACKS`].
pub proof fn law_found_packs_are_maximal(sizes: Seq<int>, limit: int)
    requires
        sizes.len() <= usize::MAX,
    ensures
        all_maximal(sizes, limit, full_walk(sizes, limit).packs),
        full_walk(sizes, limit).packs.len() <= MAX_PACKS,
{
    lemma_visit_sound(
        sizes,
        limit,
        0,
        Seq::empty(),
        Walk { nodes: ENUM_NODE_BUDGET as nat, packs: Seq::empty(), complete: true },
    );
}

proof fn lemma_visit_sound(
    sizes: Seq<int>,
    limit: int,
    start: nat,
    chosen: Seq<usize>,
    walk: Walk,
)
    requires
        sizes.len() <= usize::MAX,
        start <= sizes.len(),
        ascending(chosen, start as int),
        chosen.len() > 0 ==> pack_total(sizes, chosen) <= limit,
        all_maximal(sizes, limit, walk.packs),
        walk.packs.len() <= MAX_PACKS,
    ensures
        all_maximal(sizes, limit, visit(sizes, limit, start, chosen, walk).packs),
        visit(sizes, limit, start, chosen, walk).packs.len() <= MAX_PACKS,
    decreases sizes.len() - start, 1nat,
{
    if walk.nodes > 0 && walk.packs.len() < MAX_PACKS {
        let found = nothing_addable(sizes, limit, chosen) && chosen.len() > 0;
        let entered = Walk {
            nodes: (walk.nodes - 1) as nat,
            packs: if found {
                walk.packs.push(chosen)
            } else {
                walk.packs
            },
            complete: true,
        };
        if found {
            assert(maximal_pack(sizes, limit, chosen));
        }
        lemma_extend_sound(sizes, limit, start, chosen, entered);
    }
}

proof fn lemma_extend_sound(
    sizes: Seq<int>,
    limit: int,
    index: nat,
    chosen: Seq<usize>,
    walk: Walk,
)
    requires
        sizes.len() <= usize::MAX,
        index <= sizes.len(),
        ascending(chosen, index as int),
        chosen.len() > 0 ==> pack_total(sizes, chosen) <= limit,
        all_maximal(sizes, limit, walk.packs),
        walk.packs.len() <= MAX_PACKS,
    ensures
        all_maximal(sizes, limit, extend(sizes, limit, index, chosen, walk).packs),
        extend(sizes, limit, index, chosen, walk).packs.len() <= MAX_PACKS,
    decreases sizes.len() - index, 0nat,
{
    if index < sizes.len() {
        if pack_total(sizes, chosen) + sizes[index as int] <= limit {
            let next = chosen.push(index as usize);
            assert(next.drop_last() =~= chosen);
            lemma_visit_sound(sizes, limit, index + 1, next, walk);
            let below = visit(sizes, limit, index + 1, next, walk);
            if below.complete {
                lemma_extend_sound(sizes, limit, index + 1, chosen, below);
            }
        } else {
            lemma_extend_sound(sizes, limit, index + 1, chosen, walk);
        }
    }
}

/// What the units of the set `units` take together, of those below `bound`.
pub open spec fn set_total(sizes: Seq<int>, units: Set<usize>, bound: nat) -> int
    decreases bound,
{
    if bound == 0 {
        0
    } else {
        set_total(sizes, units, (bound - 1) as nat) + if units.contains((bound - 1) as usize) {
            sizes[bound - 1]
        } else {
            0
        }
    }
}

/// `units` is a set of units that fits the limit.
pub open spec fn fits(sizes: Seq<int>, limit: int, units: Set<usize>) -> bool {
    &&& forall|u: usize| #[trigger] units.contains(u) ==> u < sizes.len()
    &&& set_total(sizes, units, sizes.len()) <= limit
}

/// Every unit of `units` is in `pack`.
pub open spec fn covers(pack: Seq<usize>, units: Set<usize>) -> bool {
    forall|u: usize| #[trigger] units.contains(u) ==> pack.contains(u)
}

/// A completed enumeration misses nothing: every combination of units that fits is part
/// of some pack it found.
pub proof fn law_complete_walk_declares_every_fit(sizes: Seq<int>, limit: int, units: Set<usize>)
    requires
        sizes.len() <= usize::MAX,
        forall|i: int| 0 <= i < sizes.len() ==> sizes[i] >= 0,
        full_walk(sizes, limit).complete,
        fits(sizes, limit, units),
        exists|u: usize| units.contains(u),
    ensures
        exists|i: int|
            0 <= i < full_walk(sizes, limit).packs.len() && covers(
                #[trigger] full_walk(sizes, limit).packs[i],
                units,
            ),
{
    let full = saturate(sizes, limit, units, 0);
    lemma_saturate(sizes, limit, units, 0);
    let walk = Walk { nodes: ENUM_NODE_BUDGET as nat, packs: Seq::<Seq<usize>>::empty(), complete: true };
    assert(elements(full, 0) =~= Seq::<usize>::empty());
    lemma_visit_reaches(sizes, limit, full, 0, walk);
    let i = choose|i: int|
        0 <= i < full_walk(sizes, limit).packs.len() && full_walk(sizes, limit).packs[i]
            == elements(full, sizes.len());
    assert forall|u: usize| #[trigger] units.contains(u) implies full_walk(
        sizes,
        limit,
    ).packs[i].contains(u) by {
        lemma_elements(full, sizes.len());
    }
    assert(covers(full_walk(sizes, limit).packs[i], units));
}

/// `units` with every unit from `from` on added that still fits, one after the other.
spec fn saturate(sizes: Seq<int>, limit: int, units: Set<usize>, from: nat) -> Set<usize>
    decreases sizes.len() - from,
{
    if from >= sizes.len() {
        units
    } else if set_total(sizes, units.insert(from as usize), sizes.len()) <= limit {
        saturate(sizes, limit, units.insert(from as usize), from + 1)
    } else {
        saturate(sizes, limit, units, from + 1)
    }
}

/// No unit below `bound` outside `units` fits beside it.
spec fn saturated_below(sizes: Seq<int>, limit: int, units: Set<usize>, bound: nat) -> bool {
    forall|u: usize|
        u < bound && u < sizes.len() && !units.contains(u) ==> set_total(
            sizes,
            #[trigger] units.insert(u),
            sizes.len(),
        ) > limit
}

proof fn lemma_set_total_insert(sizes: Seq<int>, units: Set<usize>, unit: usize, bound: nat)
    requires
        sizes.len() <= usize::MAX,
        bound <= sizes.len(),
        !units.contains(unit),
    ensures
        set_total(sizes, units.insert(unit), bound) == set_total(sizes, units, bound) + if unit
            < bound {
            sizes[unit as int]
        } else {
            0
        },
    decreases bound,
{
    if bound > 0 {
        lemma_set_total_insert(sizes, units, unit, (bound - 1) as nat);
    }
}

proof fn lemma_saturate(sizes: Seq<int>, limit: int, units: Set<usize>, from: nat)
    requires
        sizes.len() <= usize::MAX,
        from <= sizes.len(),
        forall|i: int| 0 <= i < sizes.len() ==> sizes[i] >= 0,
        fits(sizes, limit, units),
        saturated_below(sizes, limit, units, from),
    ensures
        fits(sizes, limit, saturate(sizes, limit, units, from)),
        saturated_below(sizes, limit, saturate(sizes, limit, units, from), sizes.len()),
        units.subset_of(saturate(sizes, limit, units, from)),
    decreases sizes.len() - from,
{
    if from < sizes.len() {
        let more = units.insert(from as usize);
        if set_total(sizes, more, sizes.len()) <= limit {
            assert forall|u: usize|
                u < from + 1 && u < sizes.len() && !more.contains(u) implies set_total(
                sizes,
                #[trigger] more.insert(u),
                sizes.len(),
            ) > limit by {
                assert(set_total(sizes, units.insert(u), sizes.len()) > limit);
                lemma_set_total_insert(sizes, units, u, sizes.len());
                lemma_set_total_insert(sizes, more, u, sizes.len());
                if !units.contains(from as usize) {
                    lemma_set_total_insert(sizes, units, from as usize, sizes.len());
                } else {
                    assert(more =~= units);
                }
            }
            lemma_saturate(sizes, limit, more, from + 1);
        } else {
            lemma_saturate(sizes, limit, units, from + 1);
        }
    }
}

/// The units of a set below `bound`, in ascending order.
spec fn elements(units: Set<usize>, bound: nat) -> Seq<usize>
    decreases bound,
{
    if bound == 0 {
        Seq::empty()
    } else if units.contains((bound - 1) as usize) {
        elements(units, (bound - 1) as nat).push((bound - 1) as usize)
    } else {
        elements(units, (bound - 1) as nat)
    }
}

proof fn lemma_elements(units: Set<usize>, bound: nat)
    requires
        bound <= usize::MAX + 1,
    ensures
        forall|u: usize|
            #[trigger] elements(units, bound).contains(u) <==> u < bound && units.contains(u),
    decreases bound,
{
    if bound > 0 {
        lemma_elements(units, (bound - 1) as nat);
        let before = elements(units, (bound - 1) as nat);
        assert forall|u: usize|
            #[trigger] elements(units, bound).contains(u) <==> u < bound && units.contains(u) by {
            if units.contains((bound - 1) as usize) {
                let after = before.push((bound - 1) as usize);
                if before.contains(u) {
                    let i = choose|i: int| 0 <= i < before.len() && before[i] == u;
                    assert(after[i] == u);
                }
                if u == bound - 1 {
                    assert(after.last() == u);
                }
                if after.contains(u) {
                    let i = choose|i: int| 0 <= i < after.len() && after[i] == u;
                    if i < before.len() {
                        assert(before[i] == u);
                        assert(before.contains(u));
                    }
                }
            }
        }
    }
}

proof fn lemma_elements_total(sizes: Seq<int>, units: Set<usize>, bound: nat)
    requires
        sizes.len() <= usize::MAX,
        bound <= sizes.len(),
        forall|i: int| 0 <= i < sizes.len() ==> sizes[i] >= 0,
    ensures
        pack_total(sizes, elements(units, bound)) == set_total(sizes, units, bound),
        set_total(sizes, units, bound) <= set_total(sizes, units, sizes.len()),
    decreases bound,
{
    if bound > 0 {
        lemma_elements_total(sizes, units, (bound - 1) as nat);
        let before = elements(units, (bound - 1) as nat);
        if units.contains((bound - 1) as usize) {
            assert(before.push((bound - 1) as usize).drop_last() =~= before);
        }
    }
    lemma_set_total_grows(sizes, units, bound, sizes.len());
}

proof fn lemma_set_total_grows(sizes: Seq<int>, units: Set<usize>, low: nat, high: nat)
    requires
        low <= high <= sizes.len(),
        forall|i: int| 0 <= i < sizes.len() ==> sizes[i] >= 0,
    ensures
        set_total(sizes, units, low) <= set_total(sizes, units, high),
    decreases high,
{
    if low < high {
        lemma_set_total_grows(sizes, units, low, (high - 1) as nat);
    }
}

/// `packs` holds `pack`.
spec fn found(packs: Seq<Seq<usize>>, pack: Seq<usize>) -> bool {
    exists|i: int| 0 <= i < packs.len() && packs[i] == pack
}

/// `more` goes on from `packs`.
spec fn grown(packs: Seq<Seq<usize>>, more: Seq<Seq<usize>>) -> bool {
    &&& packs.len() <= more.len()
    &&& forall|i: int| 0 <= i < packs.len() ==> more[i] == packs[i]
}

proof fn lemma_visit_grows(sizes: Seq<int>, limit: int, start: nat, chosen: Seq<usize>, walk: Walk)
    ensures
        grown(walk.packs, visit(sizes, limit, start, chosen, walk).packs),
    decreases sizes.len() - start, 1nat,
{
    if walk.nodes > 0 && walk.packs.len() < MAX_PACKS && start <= sizes.len() {
        let found = nothing_addable(sizes, limit, chosen) && chosen.len() > 0;
        let entered = Walk {
            nodes: (walk.nodes - 1) as nat,
            packs: if found {
                walk.packs.push(chosen)
            } else {
                walk.packs
            },
            complete: true,
        };
        lemma_extend_grows(sizes, limit, start, chosen, entered);
    }
}

proof fn lemma_extend_grows(sizes: Seq<int>, limit: int, index: nat, chosen: Seq<usize>, walk: Walk)
    ensures
        grown(walk.packs, extend(sizes, limit, index, chosen, walk).packs),
    decreases sizes.len() - index, 0nat,
{
    if index < sizes.len() {
        if pack_total(sizes, chosen) + sizes[index as int] <= limit {
            let next = chosen.push(index as usize);
            lemma_visit_grows(sizes, limit, index + 1, next, walk);
            let below = visit(sizes, limit, index + 1, next, walk);
            if below.complete {
                lemma_extend_grows(sizes, limit, index + 1, chosen, below);
            }
        } else {
            lemma_extend_grows(sizes, limit, index + 1, chosen, walk);
        }
    }
}

/// A completed visit below a part of a saturated fitting set finds that set.
proof fn lemma_visit_reaches(sizes: Seq<int>, limit: int, full: Set<usize>, start: nat, walk: Walk)
    requires
        sizes.len() <= usize::MAX,
        start <= sizes.len(),
        forall|i: int| 0 <= i < sizes.len() ==> sizes[i] >= 0,
        fits(sizes, limit, full),
        saturated_below(sizes, limit, full, sizes.len()),
        exists|u: usize| full.contains(u),
        visit(sizes, limit, start, elements(full, start), walk).complete,
    ensures
        found(
            visit(sizes, limit, start, elements(full, start), walk).packs,
            elements(full, sizes.len()),
        ),
    decreases sizes.len() - start, 1nat,
{
    let chosen = elements(full, start);
    let here = nothing_addable(sizes, limit, chosen) && chosen.len() > 0;
    let entered = Walk {
        nodes: (walk.nodes - 1) as nat,
        packs: if here {
            walk.packs.push(chosen)
        } else {
            walk.packs
        },
        complete: true,
    };
    if chosen == elements(full, sizes.len()) {
        lemma_elements(full, sizes.len());
        lemma_elements_total(sizes, full, sizes.len());
        assert forall|u: usize| u < sizes.len() && !chosen.contains(u) implies pack_total(
            sizes,
            chosen,
        ) + #[trigger] sizes[u as int] > limit by {
            assert(set_total(sizes, full.insert(u), sizes.len()) > limit);
            lemma_set_total_insert(sizes, full, u, sizes.len());
        }
        let u = choose|u: usize| full.contains(u);
        assert(chosen.contains(u));
        assert(here);
        lemma_extend_grows(sizes, limit, start, chosen, entered);
        assert(entered.packs[walk.packs.len() as int] == chosen);
        assert(visit(sizes, limit, start, chosen, walk).packs[walk.packs.len() as int] == chosen);
    } else {
        lemma_extend_reaches(sizes, limit, full, start, chosen, start, entered);
    }
}

/// A completed extension of `elements(full, start)` from `index` on finds the set, where
/// the set holds nothing between the two.
proof fn lemma_extend_reaches(
    sizes: Seq<int>,
    limit: int,
    full: Set<usize>,
    start: nat,
    chosen: Seq<usize>,
    index: nat,
    walk: Walk,
)
    requires
        sizes.len() <= usize::MAX,
        start <= index <= sizes.len(),
        forall|i: int| 0 <= i < sizes.len() ==> sizes[i] >= 0,
        fits(sizes, limit, full),
        saturated_below(sizes, limit, full, sizes.len()),
        exists|u: usize| full.contains(u),
        chosen == elements(full, start),
        elements(full, index) == elements(full, start),
        chosen != elements(full, sizes.len()),
        extend(sizes, limit, index, chosen, walk).complete,
    ensures
        found(extend(sizes, limit, index, chosen, walk).packs, elements(full, sizes.len())),
    decreases sizes.len() - index, 0nat,
{
    if index < sizes.len() {
        let next = chosen.push(index as usize);
        if full.contains(index as usize) {
            assert(elements(full, index + 1) == next);
            lemma_elements_total(sizes, full, index + 1);
            assert(next.drop_last() =~= chosen);
            let below = visit(sizes, limit, index + 1, next, walk);
            assert(below.complete);
            lemma_visit_reaches(sizes, limit, full, index + 1, walk);
            lemma_extend_grows(sizes, limit, index + 1, chosen, below);
            let i = choose|i: int|
                0 <= i < below.packs.len() && below.packs[i] == elements(full, sizes.len());
            assert(extend(sizes, limit, index + 1, chosen, below).packs[i] == elements(
                full,
                sizes.len(),
            ));
        } else {
            assert(elements(full, index + 1) == elements(full, index));
            if pack_total(sizes, chosen) + sizes[index as int] <= limit {
                let below = visit(sizes, limit, index + 1, next, walk);
                assert(below.complete);
                lemma_extend_reaches(sizes, limit, full, start, chosen, index + 1, below);
            } else {
                lemma_extend_reaches(sizes, limit, full, start, chosen, index + 1, walk);
            }
        }
    }
}

/// No maximal pack is part of another one, so none is declared twice over.
pub proof fn law_no_maximal_pack_holds_another(
    sizes: Seq<int>,
    limit: int,
    inner: Seq<usize>,
    outer: Seq<usize>,
)
    requires
        sizes.len() <= usize::MAX,
        forall|i: int| 0 <= i < sizes.len() ==> sizes[i] >= 0,
        maximal_pack(sizes, limit, inner),
        maximal_pack(sizes, limit, outer),
        forall|u: usize| #[trigger] inner.contains(u) ==> outer.contains(u),
    ensures
        inner == outer,
{
    let a = inner.to_set();
    let b = outer.to_set();
    lemma_ascending_elements(inner, sizes.len());
    lemma_ascending_elements(outer, sizes.len());
    lemma_elements_total(sizes, a, sizes.len());
    lemma_elements_total(sizes, b, sizes.len());
    if !(b.subset_of(a)) {
        let u = choose|u: usize| b.contains(u) && !a.contains(u);
        assert(outer.contains(u));
        assert(!inner.contains(u));
        assert(u < sizes.len());
        lemma_set_total_insert(sizes, a, u, sizes.len());
        lemma_set_total_monotone(sizes, a.insert(u), b, sizes.len());
        assert(pack_total(sizes, inner) + sizes[u as int] > limit);
        assert(false);
    }
    assert(a =~= b);
}

proof fn lemma_set_total_monotone(sizes: Seq<int>, inner: Set<usize>, outer: Set<usize>, bound: nat)
    requires
        bound <= sizes.len(),
        forall|i: int| 0 <= i < sizes.len() ==> sizes[i] >= 0,
        inner.subset_of(outer),
    ensures
        set_total(sizes, inner, bound) <= set_total(sizes, outer, bound),
    decreases bound,
{
    if bound > 0 {
        lemma_set_total_monotone(sizes, inner, outer, (bound - 1) as nat);
    }
}

/// An ascending pack lists the elements of its set.
proof fn lemma_ascending_elements(pack: Seq<usize>, bound: nat)
    requires
        ascending(pack, bound as int),
        bound <= usize::MAX,
    ensures
        elements(pack.to_set(), bound) == pack,
    decreases bound,
{
    if bound > 0 {
        let last = (bound - 1) as usize;
        if pack.len() > 0 && pack.last() == last {
            let rest = pack.drop_last();
            assert(ascending(rest, bound - 1));
            lemma_ascending_elements(rest, (bound - 1) as nat);
            assert(pack.to_set().contains(last));
            assert forall|u: usize| u < bound - 1 implies (#[trigger] pack.to_set().contains(u)
                <==> rest.to_set().contains(u)) by {
                if pack.contains(u) {
                    let i = choose|i: int| 0 <= i < pack.len() && pack[i] == u;
                    assert(rest[i] == u);
                }
                if rest.contains(u) {
                    let i = choose|i: int| 0 <= i < rest.len() && rest[i] == u;
                    assert(pack[i] == u);
                }
            }
            lemma_elements_agree(pack.to_set(), rest.to_set(), (bound - 1) as nat);
            assert(rest.push(last) =~= pack);
        } else {
            assert forall|i: int| 0 <= i < pack.len() implies #[trigger] pack[i] < bound - 1 by {
                assert(pack[i] <= pack.last());
            }
            lemma_ascending_elements(pack, (bound - 1) as nat);
            assert(!pack.to_set().contains(last));
        }
    } else {
        if pack.len() > 0 {
            assert(pack[0] < 0);
        }
        assert(pack =~= Seq::<usize>::empty());
    }
}

proof fn lemma_elements_agree(a: Set<usize>, b: Set<usize>, bound: nat)
    requires
        bound <= usize::MAX,
        forall|u: usize| u < bound ==> (#[trigger] a.contains(u) <==> b.contains(u)),
    ensures
        elements(a, bound) == elements(b, bound),
    decreases bound,
{
    if bound > 0 {
        lemma_elements_agree(a, b, (bound - 1) as nat);
    }
}

/// A part of a pack takes no more than the pack.
pub proof fn law_a_part_takes_no_more(sizes: Seq<int>, inner: Seq<usize>, outer: Seq<usize>)
    requires
        sizes.len() <= usize::MAX,
        forall|i: int| 0 <= i < sizes.len() ==> sizes[i] >= 0,
        ascending(inner, sizes.len() as int),
        ascending(outer, sizes.len() as int),
        forall|u: usize| #[trigger] inner.contains(u) ==> outer.contains(u),
    ensures
        pack_total(sizes, inner) <= pack_total(sizes, outer),
{
    let a = inner.to_set();
    let b = outer.to_set();
    lemma_ascending_elements(inner, sizes.len());
    lemma_ascending_elements(outer, sizes.len());
    lemma_elements_total(sizes, a, sizes.len());
    lemma_elements_total(sizes, b, sizes.len());
    assert(a.subset_of(b)) by {
        assert forall|u: usize| a.contains(u) implies #[trigger] b.contains(u) by {
            assert(inner.contains(u));
        }
    }
    lemma_set_total_monotone(sizes, a, b, sizes.len());
}

} // verus!
