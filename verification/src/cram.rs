//! The prompt-cache cap that the host can afford.
//!
//! Everything in a set but the assumed prompt caches is fixed. What is left under the host
//! ceiling, shared among those caches, is the largest cap that the set can afford; the
//! tightest of these, set on every model that states none, keeps the whole matrix under it.

use vstd::prelude::*;
use vstd::string::*;

use crate::plan::{known_host, sum_view, EmittedSet, SetView};
use crate::resolve::{expr_names, expr_of_set, expr_tokens, find_expr};
use crate::text::{pieces, same, split_on, starts, strip_prefix, views};
use crate::units::{larger, FootprintView, ModelFootprint};

verus! {

// ---- the members of a set, by alternative -------------------------------------------------

/// What lists of names say.
pub open spec fn name_lists(lists: Seq<Vec<String>>) -> Seq<Seq<Seq<char>>> {
    Seq::new(lists.len(), |i: int| views(lists[i]@))
}

/// The alternatives that each term of an expression stands for. A reference to a helper set
/// stands for nothing by itself.
pub open spec fn direct_groups(terms: Seq<Seq<char>>) -> Seq<Seq<Seq<char>>>
    decreases terms.len(),
{
    if terms.len() == 0 {
        Seq::empty()
    } else {
        let before = direct_groups(terms.drop_last());
        let tokens = expr_names(terms.last());
        if tokens.len() > 0 && !starts(tokens[0], "+"@) {
            before.push(tokens)
        } else {
            before
        }
    }
}

/// The alternatives that the terms of an expression stand for, helper references followed.
pub open spec fn followed_groups(sets: Seq<SetView>, terms: Seq<Seq<char>>) -> Seq<Seq<Seq<char>>>
    decreases terms.len(),
{
    if terms.len() == 0 {
        Seq::empty()
    } else {
        let before = followed_groups(sets, terms.drop_last());
        let tokens = expr_names(terms.last());
        if tokens.len() == 0 {
            before
        } else if starts(tokens[0], "+"@) {
            match expr_of_set(sets, tokens[0].skip("+"@.len() as int)) {
                Some(expr) => before + direct_groups(pieces(expr, '&')),
                None => before,
            }
        } else {
            before.push(tokens)
        }
    }
}

/// The members of a set: for each, the ids of which one is loaded.
pub open spec fn member_groups(sets: Seq<SetView>, expr: Seq<char>) -> Seq<Seq<Seq<char>>> {
    followed_groups(sets, pieces(expr, '&'))
}

proof fn lemma_name_lists_push(lists: Seq<Vec<String>>, names: Vec<String>)
    ensures
        name_lists(lists.push(names)) == name_lists(lists).push(views(names@)),
{
    assert(name_lists(lists.push(names)) =~= name_lists(lists).push(views(names@)));
}

fn push_direct_groups(groups: &mut Vec<Vec<String>>, expr: &str)
    ensures
        name_lists(final(groups)@) == name_lists(old(groups)@) + direct_groups(
            pieces(expr@, '&'),
        ),
{
    let ghost before = name_lists(groups@);
    let terms = split_on(expr, '&');
    let ghost all = views(terms@);
    let mut at: usize = 0;
    proof {
        assert(before + direct_groups(all.take(0)) =~= before);
    }
    while at < terms.len()
        invariant
            at <= terms@.len(),
            all == views(terms@),
            name_lists(groups@) == before + direct_groups(all.take(at as int)),
        decreases terms@.len() - at,
    {
        let tokens = expr_tokens(terms[at].as_str());
        proof {
            assert(all.take(at + 1).drop_last() =~= all.take(at as int));
            assert(all.take(at + 1).last() == terms@[at as int]@);
        }
        if tokens.len() > 0 {
            proof {
                assert(views(tokens@)[0] == tokens@[0]@);
            }
            if !crate::text::starts_with(tokens[0].as_str(), "+") {
                proof {
                    lemma_name_lists_push(groups@, tokens);
                    assert((before + direct_groups(all.take(at as int))).push(views(tokens@))
                        =~= before + direct_groups(all.take(at + 1)));
                }
                groups.push(tokens);
            }
        }
        at = at + 1;
    }
    proof {
        assert(all.take(at as int) =~= all);
    }
}

fn groups_of(sets: &Vec<EmittedSet>, expr: &str) -> (groups: Vec<Vec<String>>)
    ensures
        name_lists(groups@) == member_groups(views(sets@), expr@),
{
    let terms = split_on(expr, '&');
    let ghost all = views(terms@);
    let ghost known = views(sets@);
    let mut groups: Vec<Vec<String>> = Vec::new();
    let mut at: usize = 0;
    proof {
        assert(name_lists(groups@) =~= followed_groups(known, all.take(0)));
    }
    while at < terms.len()
        invariant
            at <= terms@.len(),
            all == views(terms@),
            known == views(sets@),
            name_lists(groups@) == followed_groups(known, all.take(at as int)),
        decreases terms@.len() - at,
    {
        let tokens = expr_tokens(terms[at].as_str());
        proof {
            assert(all.take(at + 1).drop_last() =~= all.take(at as int));
            assert(all.take(at + 1).last() == terms@[at as int]@);
        }
        if tokens.len() > 0 {
            proof {
                assert(views(tokens@)[0] == tokens@[0]@);
            }
            match strip_prefix(tokens[0].as_str(), "+") {
                Some(name) => {
                    if let Some(expr) = find_expr(sets, name.as_str()) {
                        push_direct_groups(&mut groups, expr.as_str());
                    }
                },
                None => {
                    proof {
                        lemma_name_lists_push(groups@, tokens);
                    }
                    groups.push(tokens);
                },
            }
        }
        at = at + 1;
    }
    proof {
        assert(all.take(at as int) =~= all);
    }
    groups
}

// ---- what members cost --------------------------------------------------------------------

/// The first model with this id.
pub open spec fn model_named(models: Seq<FootprintView>, id: Seq<char>) -> Option<FootprintView>
    decreases models.len(),
{
    if models.len() == 0 {
        None
    } else if models[0].id == id {
        Some(models[0])
    } else {
        model_named(models.skip(1), id)
    }
}

/// What a model costs the host apart from an assumed cache.
pub open spec fn fixed_cost(models: Seq<FootprintView>, id: Seq<char>) -> int {
    match model_named(models, id) {
        Some(model) => known_host(model.host_gb) - model.cache_gb,
        None => 0,
    }
}

/// A model's prompt cache is assumed.
pub open spec fn assumes_cache(models: Seq<FootprintView>, id: Seq<char>) -> bool {
    match model_named(models, id) {
        Some(model) => model.cache_gb > 0,
        None => false,
    }
}

/// The most that one of some alternatives costs apart from an assumed cache.
pub open spec fn group_fixed(models: Seq<FootprintView>, group: Seq<Seq<char>>) -> int
    decreases group.len(),
{
    if group.len() == 0 {
        0
    } else {
        larger(group_fixed(models, group.drop_last()), fixed_cost(models, group.last()))
    }
}

/// One of some alternatives has an assumed cache.
pub open spec fn group_assumes(models: Seq<FootprintView>, group: Seq<Seq<char>>) -> bool
    decreases group.len(),
{
    group.len() > 0 && (group_assumes(models, group.drop_last()) || assumes_cache(
        models,
        group.last(),
    ))
}

/// What the members of a set cost apart from assumed caches.
pub open spec fn groups_fixed(models: Seq<FootprintView>, groups: Seq<Seq<Seq<char>>>) -> int
    decreases groups.len(),
{
    if groups.len() == 0 {
        0
    } else {
        groups_fixed(models, groups.drop_last()) + group_fixed(models, groups.last())
    }
}

/// How many members of a set have an assumed cache.
pub open spec fn groups_caches(models: Seq<FootprintView>, groups: Seq<Seq<Seq<char>>>) -> nat
    decreases groups.len(),
{
    if groups.len() == 0 {
        0
    } else {
        groups_caches(models, groups.drop_last()) + if group_assumes(models, groups.last()) {
            1nat
        } else {
            0nat
        }
    }
}

/// How large a cap on every assumed cache may be.
pub enum Afford {
    /// No set has an assumed cache.
    Unasked,
    /// At most this.
    UpTo(int),
    /// No cap helps: a set is over on what was measured.
    Never,
}

/// What a set with these members leaves of what could be afforded before it.
pub open spec fn afford_with(
    before: Afford,
    models: Seq<FootprintView>,
    baseline: int,
    ceiling: int,
    groups: Seq<Seq<Seq<char>>>,
) -> Afford {
    let free = ceiling - baseline - groups_fixed(models, groups);
    let caches = groups_caches(models, groups) as int;
    if before is Never || free < 0 {
        Afford::Never
    } else if caches == 0 {
        before
    } else {
        match before {
            Afford::UpTo(least) => if free / caches < least {
                Afford::UpTo(free / caches)
            } else {
                before
            },
            _ => Afford::UpTo(free / caches),
        }
    }
}

/// What the first `bound` of some sets can afford.
pub open spec fn affordable(
    sets: Seq<SetView>,
    models: Seq<FootprintView>,
    baseline: int,
    ceiling: int,
    bound: nat,
) -> Afford
    decreases bound,
{
    if bound == 0 {
        Afford::Unasked
    } else {
        afford_with(
            affordable(sets, models, baseline, ceiling, (bound - 1) as nat),
            models,
            baseline,
            ceiling,
            member_groups(sets, sets[bound - 1].expr),
        )
    }
}

/// A cap, in whole steps of 256 MiB.
pub open spec fn prescribed(afford: Afford) -> Option<int> {
    match afford {
        Afford::UpTo(most) => if most < 0 {
            None
        } else {
            Some(most / 256_000_000 * 256_000_000)
        },
        _ => None,
    }
}

/// The same, as a value.
#[derive(Debug, Clone, Copy, PartialEq, Eq, Structural)]
pub enum Affordable {
    Unasked,
    UpTo(i128),
    Never,
}

impl View for Affordable {
    type V = Afford;

    open spec fn view(&self) -> Afford {
        match *self {
            Affordable::Unasked => Afford::Unasked,
            Affordable::UpTo(most) => Afford::UpTo(most as int),
            Affordable::Never => Afford::Never,
        }
    }
}

fn find_model<'a>(models: &'a Vec<ModelFootprint>, id: &str) -> (r: Option<&'a ModelFootprint>)
    ensures
        match r {
            Some(model) => model_named(views(models@), id@) == Some(model@),
            None => model_named(views(models@), id@) is None,
        },
{
    let ghost all = views(models@);
    let mut at: usize = 0;
    proof {
        assert(all.skip(0) =~= all);
    }
    while at < models.len()
        invariant
            at <= models@.len(),
            all == views(models@),
            model_named(all.skip(at as int), id@) == model_named(all, id@),
        decreases models@.len() - at,
    {
        proof {
            assert(all.skip(at as int)[0] == models@[at as int]@);
            assert(all.skip(at as int).skip(1) =~= all.skip(at + 1));
        }
        if same(models[at].id.as_str(), id) {
            return Some(&models[at]);
        }
        at = at + 1;
    }
    None
}

fn cost_of_group(models: &Vec<ModelFootprint>, group: &Vec<String>) -> (r: (i128, bool))
    ensures
        r.0 == group_fixed(views(models@), views(group@)),
        0 <= r.0 <= 0x2_0000_0000_0000_0000,
        r.1 == group_assumes(views(models@), views(group@)),
{
    let ghost known = views(models@);
    let ghost all = views(group@);
    let mut fixed: i128 = 0;
    let mut assumes = false;
    let mut at: usize = 0;
    while at < group.len()
        invariant
            at <= group@.len(),
            known == views(models@),
            all == views(group@),
            fixed == group_fixed(known, all.take(at as int)),
            0 <= fixed <= 0x2_0000_0000_0000_0000,
            assumes == group_assumes(known, all.take(at as int)),
        decreases group@.len() - at,
    {
        proof {
            assert(all.take(at + 1).drop_last() =~= all.take(at as int));
            assert(all.take(at + 1).last() == group@[at as int]@);
        }
        if let Some(model) = find_model(models, group[at].as_str()) {
            let host: i64 = match model.host_gb {
                Some(cost) => cost,
                None => 0,
            };
            let part: i128 = host as i128 - model.cache_gb as i128;
            if fixed < part {
                fixed = part;
            }
            if model.cache_gb > 0 {
                assumes = true;
            }
        }
        at = at + 1;
    }
    proof {
        assert(all.take(at as int) =~= all);
    }
    (fixed, assumes)
}

proof fn lemma_group_fixed_positive(models: Seq<FootprintView>, group: Seq<Seq<char>>)
    ensures
        group_fixed(models, group) >= 0,
    decreases group.len(),
{
    if group.len() > 0 {
        lemma_group_fixed_positive(models, group.drop_last());
    }
}

proof fn lemma_groups_fixed_grows(
    models: Seq<FootprintView>,
    groups: Seq<Seq<Seq<char>>>,
    bound: int,
)
    requires
        0 <= bound <= groups.len(),
    ensures
        groups_fixed(models, groups.take(bound)) <= groups_fixed(models, groups),
    decreases groups.len() - bound,
{
    if bound < groups.len() {
        lemma_groups_fixed_grows(models, groups, bound + 1);
        assert(groups.take(bound + 1).drop_last() =~= groups.take(bound));
        lemma_group_fixed_positive(models, groups.take(bound + 1).last());
    } else {
        assert(groups.take(bound) =~= groups);
    }
}

/// What a set leaves free under a ceiling, and how many assumed caches share it. `None` where
/// nothing is left.
fn room_of(
    models: &Vec<ModelFootprint>,
    groups: &Vec<Vec<String>>,
    baseline: i64,
    ceiling: i128,
) -> (r: Option<(i128, usize)>)
    requires
        -0x2_0000_0000_0000_0000 <= ceiling <= 0x2_0000_0000_0000_0000,
    ensures
        match r {
            Some((free, caches)) => {
                &&& free >= 0
                &&& free == ceiling - baseline - groups_fixed(
                    views(models@),
                    name_lists(groups@),
                )
                &&& caches == groups_caches(views(models@), name_lists(groups@))
            },
            None => ceiling - baseline - groups_fixed(views(models@), name_lists(groups@)) < 0,
        },
{
    let ghost known = views(models@);
    let ghost all = name_lists(groups@);
    let mut free: i128 = ceiling - baseline as i128;
    let mut caches: usize = 0;
    let mut at: usize = 0;
    proof {
        assert(all.take(0) =~= Seq::<Seq<Seq<char>>>::empty());
        lemma_groups_fixed_grows(known, all, 0);
    }
    if free < 0 {
        return None;
    }
    while at < groups.len()
        invariant
            at <= groups@.len(),
            known == views(models@),
            all == name_lists(groups@),
            0 <= free <= 0x4_0000_0000_0000_0000,
            free == ceiling - baseline - groups_fixed(known, all.take(at as int)),
            caches == groups_caches(known, all.take(at as int)),
            caches <= at,
        decreases groups@.len() - at,
    {
        let (fixed, assumes) = cost_of_group(models, &groups[at]);
        proof {
            assert(all.take(at + 1).drop_last() =~= all.take(at as int));
            assert(all.take(at + 1).last() == views(groups@[at as int]@));
        }
        free = free - fixed;
        if free < 0 {
            proof {
                lemma_groups_fixed_grows(known, all, at + 1);
            }
            return None;
        }
        if assumes {
            caches = caches + 1;
        }
        at = at + 1;
    }
    proof {
        assert(all.take(at as int) =~= all);
    }
    Some((free, caches))
}

/// How large a cap on every assumed prompt cache may be, for every set to stay under the host
/// ceiling.
pub fn afford(
    sets: &Vec<EmittedSet>,
    models: &Vec<ModelFootprint>,
    baseline: i64,
    ceiling: i128,
) -> (r: Affordable)
    requires
        -0x2_0000_0000_0000_0000 <= ceiling <= 0x2_0000_0000_0000_0000,
    ensures
        r@ == affordable(
            views(sets@),
            views(models@),
            baseline as int,
            ceiling as int,
            sets@.len(),
        ),
{
    let ghost all = views(sets@);
    let ghost known = views(models@);
    let mut r = Affordable::Unasked;
    let mut at: usize = 0;
    while at < sets.len()
        invariant
            at <= sets@.len(),
            all == views(sets@),
            known == views(models@),
            -0x2_0000_0000_0000_0000 <= ceiling <= 0x2_0000_0000_0000_0000,
            r@ == affordable(all, known, baseline as int, ceiling as int, at as nat),
        decreases sets@.len() - at,
    {
        proof {
            assert(all[at as int] == sets@[at as int]@);
        }
        let groups = groups_of(sets, sets[at].expr.as_str());
        match room_of(models, &groups, baseline, ceiling) {
            Some((free, caches)) => {
                if caches > 0 {
                    let share: i128 = free / caches as i128;
                    match r {
                        Affordable::UpTo(least) => {
                            if share < least {
                                r = Affordable::UpTo(share);
                            }
                        },
                        Affordable::Unasked => {
                            r = Affordable::UpTo(share);
                        },
                        Affordable::Never => {},
                    }
                }
            },
            None => {
                r = Affordable::Never;
            },
        }
        at = at + 1;
    }
    r
}

impl Affordable {
    /// The cap to set, in whole steps of 256 MiB.
    pub fn cap(&self) -> (r: Option<i128>)
        ensures
            sum_view(r) == prescribed(self@),
    {
        match self {
            Affordable::UpTo(most) => if *most < 0 {
                None
            } else {
                let whole: i128 = *most / 256_000_000;
                Some(whole * 256_000_000)
            },
            Affordable::Unasked => None,
            Affordable::Never => None,
        }
    }
}

proof fn lemma_affordable(
    sets: Seq<SetView>,
    models: Seq<FootprintView>,
    baseline: int,
    ceiling: int,
    bound: nat,
    i: int,
)
    requires
        0 <= i < bound <= sets.len(),
        affordable(sets, models, baseline, ceiling, bound) is UpTo,
    ensures
        ({
            let groups = member_groups(sets, sets[i].expr);
            let free = ceiling - baseline - groups_fixed(models, groups);
            let caches = groups_caches(models, groups) as int;
            &&& free >= 0
            &&& caches > 0 ==> affordable(sets, models, baseline, ceiling, bound)->UpTo_0 <= free
                / caches
        }),
    decreases bound,
{
    let before = affordable(sets, models, baseline, ceiling, (bound - 1) as nat);
    if i < bound - 1 {
        if before is UpTo {
            lemma_affordable(sets, models, baseline, ceiling, (bound - 1) as nat, i);
        } else {
            lemma_unasked(sets, models, baseline, ceiling, (bound - 1) as nat, i);
        }
    }
}

proof fn lemma_unasked(
    sets: Seq<SetView>,
    models: Seq<FootprintView>,
    baseline: int,
    ceiling: int,
    bound: nat,
    i: int,
)
    requires
        0 <= i < bound <= sets.len(),
        affordable(sets, models, baseline, ceiling, bound) is Unasked,
    ensures
        ({
            let groups = member_groups(sets, sets[i].expr);
            &&& ceiling - baseline - groups_fixed(models, groups) >= 0
            &&& groups_caches(models, groups) == 0
        }),
    decreases bound,
{
    if i < bound - 1 {
        lemma_unasked(sets, models, baseline, ceiling, (bound - 1) as nat, i);
    }
}

/// The prescribed cap does what it is for: with it on every assumed cache, whichever
/// alternatives are loaded, every set stays under the host ceiling.
pub proof fn law_the_prescribed_cap_fits_every_set(
    sets: Seq<SetView>,
    models: Seq<FootprintView>,
    baseline: int,
    ceiling: int,
    i: int,
)
    requires
        0 <= i < sets.len(),
        prescribed(affordable(sets, models, baseline, ceiling, sets.len())) is Some,
    ensures
        ({
            let groups = member_groups(sets, sets[i].expr);
            let cap = prescribed(affordable(sets, models, baseline, ceiling, sets.len()))->0;
            baseline + groups_fixed(models, groups) + groups_caches(models, groups) * cap
                <= ceiling
        }),
{
    lemma_affordable(sets, models, baseline, ceiling, sets.len(), i);
    let groups = member_groups(sets, sets[i].expr);
    let free = ceiling - baseline - groups_fixed(models, groups);
    let caches = groups_caches(models, groups) as int;
    let most = affordable(sets, models, baseline, ceiling, sets.len())->UpTo_0;
    let cap = prescribed(affordable(sets, models, baseline, ceiling, sets.len()))->0;
    assert(cap <= most);
    if caches > 0 {
        assert(caches * cap <= free) by (nonlinear_arith)
            requires
                caches > 0,
                cap <= most,
                most <= free / caches,
        ;
    } else {
        assert(caches * cap == 0) by (nonlinear_arith)
            requires
                caches == 0,
        ;
    }
}

proof fn lemma_tightest(
    sets: Seq<SetView>,
    models: Seq<FootprintView>,
    baseline: int,
    ceiling: int,
    bound: nat,
) -> (i: int)
    requires
        bound <= sets.len(),
        affordable(sets, models, baseline, ceiling, bound) is UpTo,
    ensures
        0 <= i < bound,
        ({
            let groups = member_groups(sets, sets[i].expr);
            let free = ceiling - baseline - groups_fixed(models, groups);
            let caches = groups_caches(models, groups) as int;
            &&& free >= 0
            &&& caches > 0
            &&& affordable(sets, models, baseline, ceiling, bound)->UpTo_0 == free / caches
        }),
    decreases bound,
{
    let before = affordable(sets, models, baseline, ceiling, (bound - 1) as nat);
    let after = affordable(sets, models, baseline, ceiling, bound);
    if before is UpTo && before == after {
        lemma_tightest(sets, models, baseline, ceiling, (bound - 1) as nat)
    } else {
        bound - 1
    }
}

/// No larger one would: with the next step up, some set is over the host ceiling.
pub proof fn law_no_larger_cap_fits(
    sets: Seq<SetView>,
    models: Seq<FootprintView>,
    baseline: int,
    ceiling: int,
)
    requires
        prescribed(affordable(sets, models, baseline, ceiling, sets.len())) is Some,
    ensures
        exists|i: int|
            0 <= i < sets.len() && {
                let groups = member_groups(sets, (#[trigger] sets[i]).expr);
                let cap = prescribed(affordable(sets, models, baseline, ceiling, sets.len()))->0;
                baseline + groups_fixed(models, groups) + groups_caches(models, groups) * (cap
                    + 256_000_000) > ceiling
            },
{
    let i = lemma_tightest(sets, models, baseline, ceiling, sets.len());
    let groups = member_groups(sets, sets[i].expr);
    let free = ceiling - baseline - groups_fixed(models, groups);
    let caches = groups_caches(models, groups) as int;
    let most = free / caches;
    let cap = most / 256_000_000 * 256_000_000;
    let next = cap + 256_000_000;
    assert(next >= most + 1);
    assert(caches * next > free) by (nonlinear_arith)
        requires
            caches > 0,
            next >= most + 1,
            most == free / caches,
    ;
    assert(sets[i].expr == sets[i].expr);
}

// ---- what a cap is reckoned from ----------------------------------------------------------

/// A member counts with what it costs the host apart from an assumed cache, and its cache is
/// capped exactly if it is assumed.
pub proof fn law_a_member_counts_without_its_assumed_cache(models: Seq<FootprintView>, i: int)
    requires
        0 <= i < models.len(),
        forall|j: int| 0 <= j < i ==> (#[trigger] models[j]).id != models[i].id,
    ensures
        models[i].host_gb is Some ==> fixed_cost(models, models[i].id) == models[i].host_gb->0
            - models[i].cache_gb,
        models[i].host_gb is None ==> fixed_cost(models, models[i].id) == -models[i].cache_gb,
        assumes_cache(models, models[i].id) == (models[i].cache_gb > 0),
{
    lemma_model_named(models, i);
}

proof fn lemma_model_named(models: Seq<FootprintView>, i: int)
    requires
        0 <= i < models.len(),
        forall|j: int| 0 <= j < i ==> (#[trigger] models[j]).id != models[i].id,
    ensures
        model_named(models, models[i].id) == Some(models[i]),
    decreases models.len(),
{
    if i > 0 {
        assert(models[0].id != models[i].id);
        let rest = models.skip(1);
        assert forall|j: int| 0 <= j < i - 1 implies (#[trigger] rest[j]).id != rest[i - 1].id by {
            assert(models[j + 1].id != models[i].id);
        }
        lemma_model_named(rest, i - 1);
    }
}

/// Of some alternatives the dearest counts, and one assumed cache if any of them has one.
pub proof fn law_of_alternatives_the_dearest_counts(
    models: Seq<FootprintView>,
    group: Seq<Seq<char>>,
)
    ensures
        forall|i: int|
            0 <= i < group.len() ==> fixed_cost(models, #[trigger] group[i]) <= group_fixed(
                models,
                group,
            ),
        group_fixed(models, group) == 0 || exists|i: int|
            0 <= i < group.len() && fixed_cost(models, #[trigger] group[i]) == group_fixed(
                models,
                group,
            ),
        group_fixed(models, group) >= 0,
        group_assumes(models, group) <==> exists|i: int|
            0 <= i < group.len() && assumes_cache(models, #[trigger] group[i]),
    decreases group.len(),
{
    if group.len() > 0 {
        let fewer = group.drop_last();
        let last = group.len() - 1;
        law_of_alternatives_the_dearest_counts(models, fewer);
        assert forall|i: int| 0 <= i < group.len() implies fixed_cost(models, #[trigger] group[i])
            <= group_fixed(models, group) by {
            if i < last {
                assert(fewer[i] == group[i]);
            }
        }
        if group_fixed(models, group) != 0 {
            if group_fixed(models, group) == fixed_cost(models, group[last]) {
            } else {
                let i = choose|i: int|
                    0 <= i < fewer.len() && fixed_cost(models, #[trigger] fewer[i])
                        == group_fixed(models, fewer);
                assert(fixed_cost(models, group[i]) == group_fixed(models, group));
            }
        }
        if group_assumes(models, fewer) {
            let i = choose|i: int| 0 <= i < fewer.len() && assumes_cache(models, #[trigger] fewer[i]);
            assert(assumes_cache(models, group[i]));
        }
        if exists|i: int| 0 <= i < group.len() && assumes_cache(models, #[trigger] group[i]) {
            let i = choose|i: int| 0 <= i < group.len() && assumes_cache(models, #[trigger] group[i]);
            if i < last {
                assert(assumes_cache(models, fewer[i]));
            }
        }
    }
}

/// Every member of a set counts, with its own cache.
pub proof fn law_every_member_counts(
    models: Seq<FootprintView>,
    groups: Seq<Seq<Seq<char>>>,
    group: Seq<Seq<char>>,
)
    ensures
        groups_fixed(models, groups.push(group)) == groups_fixed(models, groups) + group_fixed(
            models,
            group,
        ),
        groups_caches(models, groups.push(group)) == groups_caches(models, groups) + (
        if group_assumes(models, group) {
            1nat
        } else {
            0nat
        }),
        groups_fixed(models, Seq::empty()) == 0,
        groups_caches(models, Seq::empty()) == 0,
{
    assert(groups.push(group).drop_last() =~= groups);
}

/// A term that names models stands for a member that is one of them; a term that refers to a
/// helper set stands for that set's members.
pub proof fn law_a_term_is_a_member(
    sets: Seq<SetView>,
    terms: Seq<Seq<char>>,
    term: Seq<char>,
    h: int,
)
    requires
        expr_names(term).len() > 0,
        0 <= h < sets.len(),
        forall|j: int| 0 <= j < h ==> (#[trigger] sets[j]).name != sets[h].name,
    ensures
        !starts(expr_names(term)[0], "+"@) ==> followed_groups(sets, terms.push(term))
            == followed_groups(sets, terms).push(expr_names(term)),
        expr_names(term)[0] == "+"@ + sets[h].name ==> followed_groups(sets, terms.push(term))
            == followed_groups(sets, terms) + direct_groups(pieces(sets[h].expr, '&')),
{
    assert(terms.push(term).drop_last() =~= terms);
    let reference = "+"@ + sets[h].name;
    assert(reference.subrange(0, "+"@.len() as int) =~= "+"@);
    assert(reference.skip("+"@.len() as int) =~= sets[h].name);
    lemma_expr_of_set(sets, h);
}

proof fn lemma_expr_of_set(sets: Seq<SetView>, h: int)
    requires
        0 <= h < sets.len(),
        forall|j: int| 0 <= j < h ==> (#[trigger] sets[j]).name != sets[h].name,
    ensures
        expr_of_set(sets, sets[h].name) == Some(sets[h].expr),
    decreases sets.len(),
{
    if h > 0 {
        assert(sets[0].name != sets[h].name);
        let rest = sets.skip(1);
        assert forall|j: int| 0 <= j < h - 1 implies (#[trigger] rest[j]).name != rest[h - 1].name by {
            assert(sets[j + 1].name != sets[h].name);
        }
        lemma_expr_of_set(rest, h - 1);
    }
}

/// A helper set's own terms are its members.
pub proof fn law_a_helper_term_is_a_member(terms: Seq<Seq<char>>, term: Seq<char>)
    requires
        expr_names(term).len() > 0,
        !starts(expr_names(term)[0], "+"@),
    ensures
        direct_groups(terms.push(term)) == direct_groups(terms).push(expr_names(term)),
{
    assert(terms.push(term).drop_last() =~= terms);
}

/// A cap is prescribed exactly if some set has an assumed cache and no set is over without any.
pub proof fn law_a_cap_is_prescribed_where_one_helps(
    sets: Seq<SetView>,
    models: Seq<FootprintView>,
    baseline: int,
    ceiling: int,
    bound: nat,
)
    requires
        bound <= sets.len(),
    ensures
        ({
            let afford = affordable(sets, models, baseline, ceiling, bound);
            let over = exists|i: int|
                0 <= i < bound && baseline + groups_fixed(
                    models,
                    member_groups(sets, (#[trigger] sets[i]).expr),
                ) > ceiling;
            let assumed = exists|i: int|
                0 <= i < bound && groups_caches(
                    models,
                    member_groups(sets, (#[trigger] sets[i]).expr),
                ) > 0;
            &&& afford is Never <==> over
            &&& afford is Unasked <==> !over && !assumed
            &&& prescribed(afford) is Some <==> !over && assumed
            &&& afford is UpTo ==> afford->UpTo_0 >= 0
            &&& prescribed(afford) is Some ==> prescribed(afford)->0 >= 0 && prescribed(afford)->0
                % 256_000_000 == 0
        }),
    decreases bound,
{
    if bound > 0 {
        let fewer = (bound - 1) as nat;
        law_a_cap_is_prescribed_where_one_helps(sets, models, baseline, ceiling, fewer);
        let groups = member_groups(sets, sets[bound - 1].expr);
        let free = ceiling - baseline - groups_fixed(models, groups);
        let caches = groups_caches(models, groups) as int;
        let last = sets[bound - 1];
        if caches > 0 && free >= 0 {
            assert(free / caches >= 0) by (nonlinear_arith)
                requires
                    caches > 0,
                    free >= 0,
            ;
        }
        let before = affordable(sets, models, baseline, ceiling, fewer);
        let after = affordable(sets, models, baseline, ceiling, bound);
        if exists|i: int|
            0 <= i < bound && baseline + groups_fixed(
                models,
                member_groups(sets, (#[trigger] sets[i]).expr),
            ) > ceiling {
            let i = choose|i: int|
                0 <= i < bound && baseline + groups_fixed(
                    models,
                    member_groups(sets, (#[trigger] sets[i]).expr),
                ) > ceiling;
            assert(i == bound - 1 || i < fewer);
        }
        if exists|i: int|
            0 <= i < bound && groups_caches(
                models,
                member_groups(sets, (#[trigger] sets[i]).expr),
            ) > 0 {
            let i = choose|i: int|
                0 <= i < bound && groups_caches(
                    models,
                    member_groups(sets, (#[trigger] sets[i]).expr),
                ) > 0;
            assert(i == bound - 1 || i < fewer);
        }
    }
}

} // verus!
