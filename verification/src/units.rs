//! From measured models to knapsack units: interchangeable variants collapse into one.

use vstd::prelude::*;
use vstd::string::*;

use crate::model::{text_view, ModelType};
use crate::policy::{Policy, PolicyView, Strategy};
use crate::tables::group_entry;
use crate::text::{chars_of, has_name, is_alphanumeric, lemma_filter, lemma_views_push, same, views};

verus! {

/// A measured model handed to the builder. Amounts are in units (see `number`).
#[derive(Debug)]
pub struct ModelFootprint {
    pub id: String,
    pub model_type: ModelType,
    /// Weight path as written in the command: variants that share it are one model.
    pub primary_file: Option<String>,
    /// Memory over the empty pool: the footprint.
    pub d_total: i64,
    /// Host memory this model costs while resident. `None` where the store holds no host
    /// measurement, which disables the host check rather than guessing at it.
    pub host_gb: Option<i64>,
    /// The part of it that is a prompt cache taken on assumption, as the command states no
    /// cap; zero where nothing is assumed.
    pub cache_gb: i64,
    /// Whether the model's process holds a prompt cache, stated or assumed.
    pub holds_cache: bool,
}

/// What a footprint says.
#[verifier::ext_equal]
pub struct FootprintView {
    pub id: Seq<char>,
    pub model_type: ModelType,
    pub primary_file: Option<Seq<char>>,
    pub d_total: int,
    pub host_gb: Option<int>,
    pub cache_gb: int,
    pub holds_cache: bool,
}

/// What an optional amount stands for.
pub open spec fn amount_view(amount: Option<i64>) -> Option<int> {
    match amount {
        Some(a) => Some(a as int),
        None => None,
    }
}

impl View for ModelFootprint {
    type V = FootprintView;

    open spec fn view(&self) -> FootprintView {
        FootprintView {
            id: self.id@,
            model_type: self.model_type,
            primary_file: text_view(self.primary_file),
            d_total: self.d_total as int,
            host_gb: amount_view(self.host_gb),
            cache_gb: self.cache_gb as int,
            holds_cache: self.holds_cache,
        }
    }
}

/// A logical model: one or more interchangeable variants, sized by the largest.
#[derive(Debug)]
pub struct Unit {
    /// Key that set names are made of.
    pub key: String,
    /// Member ids: a `|` alternative in a set's expression.
    pub ids: Vec<String>,
    /// Footprint: the largest member's, so that any member fits.
    pub size: i64,
    /// Host cost: the largest member's. `None` if any member's is unknown.
    pub host_size: Option<i64>,
}

/// What a unit says.
#[verifier::ext_equal]
pub struct UnitView {
    pub key: Seq<char>,
    pub ids: Seq<Seq<char>>,
    pub size: int,
    pub host_size: Option<int>,
}

impl View for Unit {
    type V = UnitView;

    open spec fn view(&self) -> UnitView {
        UnitView {
            key: self.key@,
            ids: views(self.ids@),
            size: self.size as int,
            host_size: amount_view(self.host_size),
        }
    }
}

// ---- keys -----------------------------------------------------------------------------

/// A name as a fragment of a set name: letters and digits stay, the rest is `_`.
pub open spec fn safe_name(name: Seq<char>) -> Seq<char> {
    name.map_values(|c: char| if is_alphanumeric(c) { c } else { '_' })
}

pub fn safe_key(source: &str) -> (key: String)
    ensures
        key@ == safe_name(source@),
{
    let chars = chars_of(source);
    let mut key = String::new();
    let mut at: usize = 0;
    while at < chars.len()
        invariant
            at <= chars@.len(),
            chars@ == source@,
            key@ == safe_name(source@.take(at as int)),
        decreases chars@.len() - at,
    {
        let c = chars[at];
        let safe = if ('0' <= c && c <= '9') || ('a' <= c && c <= 'z') || ('A' <= c && c <= 'Z') {
            c
        } else {
            '_'
        };
        key.push(safe);
        at = at + 1;
        proof {
            assert(safe_name(source@.take(at as int)) =~= safe_name(source@.take(at - 1)).push(
                safe,
            ));
        }
    }
    proof {
        assert(source@.take(at as int) =~= source@);
    }
    key
}

// ---- variants of one weight file ---------------------------------------------------------

/// What decides whether two models are one: their weight file, or the id without one.
pub open spec fn file_key(model: FootprintView) -> Seq<char> {
    match model.primary_file {
        Some(file) => file,
        None => model.id,
    }
}

/// The distinct file keys of some models, in order of first occurrence.
pub open spec fn file_keys(models: Seq<FootprintView>) -> Seq<Seq<char>>
    decreases models.len(),
{
    if models.len() == 0 {
        Seq::empty()
    } else {
        let before = file_keys(models.drop_last());
        if before.contains(file_key(models.last())) {
            before
        } else {
            before.push(file_key(models.last()))
        }
    }
}

/// The models with this file key, in order.
pub open spec fn variants(models: Seq<FootprintView>, key: Seq<char>) -> Seq<FootprintView> {
    models.filter(|m: FootprintView| file_key(m) == key)
}

pub open spec fn model_ids(models: Seq<FootprintView>) -> Seq<Seq<char>> {
    Seq::new(models.len(), |i: int| models[i].id)
}

pub open spec fn larger(a: int, b: int) -> int {
    if a < b {
        b
    } else {
        a
    }
}

/// The largest footprint among some models; none is below zero.
pub open spec fn largest(models: Seq<FootprintView>) -> int
    decreases models.len(),
{
    if models.len() == 0 {
        0
    } else {
        larger(largest(models.drop_last()), models.last().d_total)
    }
}

/// The larger of two host costs, unknown if either is.
pub open spec fn larger_host(a: Option<int>, b: Option<int>) -> Option<int> {
    match (a, b) {
        (Some(x), Some(y)) => Some(larger(x, y)),
        _ => None,
    }
}

/// The largest host cost among some models.
pub open spec fn largest_host(models: Seq<FootprintView>) -> Option<int>
    decreases models.len(),
{
    if models.len() == 0 {
        Some(0)
    } else {
        larger_host(largest_host(models.drop_last()), models.last().host_gb)
    }
}

/// The unit that the models with this file key make.
pub open spec fn unit_of_file(models: Seq<FootprintView>, key: Seq<char>) -> UnitView {
    let members = variants(models, key);
    UnitView {
        key: safe_name(members[0].id),
        ids: model_ids(members),
        size: largest(members),
        host_size: largest_host(members),
    }
}

/// One unit per distinct weight file.
pub open spec fn flat_units(models: Seq<FootprintView>) -> Seq<UnitView> {
    Seq::new(file_keys(models).len(), |i: int| unit_of_file(models, file_keys(models)[i]))
}

fn larger_of(a: i64, b: i64) -> (r: i64)
    ensures
        r == larger(a as int, b as int),
{
    if a < b {
        b
    } else {
        a
    }
}

fn larger_host_of(a: Option<i64>, b: Option<i64>) -> (r: Option<i64>)
    ensures
        amount_view(r) == larger_host(amount_view(a), amount_view(b)),
{
    match (a, b) {
        (Some(x), Some(y)) => Some(larger_of(x, y)),
        _ => None,
    }
}

fn key_of_file(model: &ModelFootprint) -> (key: String)
    ensures
        key@ == file_key(model@),
{
    match &model.primary_file {
        Some(file) => file.clone(),
        None => model.id.clone(),
    }
}

proof fn lemma_key_has_variant(models: Seq<FootprintView>, key: Seq<char>)
    requires
        file_keys(models).contains(key),
    ensures
        variants(models, key).len() > 0,
    decreases models.len(),
{
    reveal(Seq::filter);
    if models.len() > 0 {
        let before = file_keys(models.drop_last());
        if file_key(models.last()) != key {
            let i = choose|i: int| 0 <= i < file_keys(models).len() && file_keys(models)[i] == key;
            if !before.contains(file_key(models.last())) {
                assert(i < before.len());
            }
            assert(before[i] == key);
            lemma_key_has_variant(models.drop_last(), key);
        }
    }
}

fn unit_from_file(models: &Vec<&ModelFootprint>, key: &str) -> (unit: Unit)
    requires
        file_keys(views(models@)).contains(key@),
    ensures
        unit@ == unit_of_file(views(models@), key@),
{
    let ghost all = views(models@);
    let ghost pred = |m: FootprintView| file_key(m) == key@;
    let mut ids: Vec<String> = Vec::new();
    let mut size: i64 = 0;
    let mut host_size: Option<i64> = Some(0);
    let mut index: usize = 0;
    proof {
        reveal(Seq::filter);
        assert(all.take(0).filter(pred) =~= Seq::<FootprintView>::empty());
        assert(model_ids(all.take(0).filter(pred)) =~= views(ids@));
    }
    while index < models.len()
        invariant
            index <= models@.len(),
            all == views(models@),
            pred == (|m: FootprintView| file_key(m) == key@),
            views(ids@) == model_ids(all.take(index as int).filter(pred)),
            size == largest(all.take(index as int).filter(pred)),
            amount_view(host_size) == largest_host(all.take(index as int).filter(pred)),
        decreases models@.len() - index,
    {
        let model = models[index];
        let ghost before = all.take(index as int).filter(pred);
        proof {
            reveal(Seq::filter);
            assert(all[index as int] == model@);
            assert(all.take(index + 1).drop_last() =~= all.take(index as int));
        }
        if same(key_of_file(model).as_str(), key) {
            let id = model.id.clone();
            proof {
                let after = before.push(model@);
                assert(after.drop_last() =~= before);
                lemma_views_push(ids@, id);
                assert(model_ids(after) =~= model_ids(before).push(id@));
            }
            ids.push(id);
            size = larger_of(size, model.d_total);
            host_size = larger_host_of(host_size, model.host_gb);
        }
        index = index + 1;
    }
    proof {
        assert(all.take(index as int) =~= all);
        lemma_key_has_variant(all, key@);
        assert(views(ids@)[0] == variants(all, key@)[0].id);
    }
    Unit { key: safe_key(ids[0].as_str()), ids, size, host_size }
}

/// One unit per distinct weight file, in order of first occurrence.
fn units_by_file(models: &Vec<&ModelFootprint>) -> (units: Vec<Unit>)
    ensures
        views(units@) == flat_units(views(models@)),
{
    let ghost all = views(models@);
    let mut keys: Vec<String> = Vec::new();
    let mut index: usize = 0;
    proof {
        assert(views(keys@) =~= file_keys(all.take(0)));
    }
    while index < models.len()
        invariant
            index <= models@.len(),
            all == views(models@),
            views(keys@) == file_keys(all.take(index as int)),
        decreases models@.len() - index,
    {
        let key = key_of_file(models[index]);
        proof {
            assert(all.take(index + 1).drop_last() =~= all.take(index as int));
            lemma_views_push(keys@, key);
        }
        if !has_name(&keys, key.as_str()) {
            keys.push(key);
        }
        index = index + 1;
    }
    proof {
        assert(all.take(index as int) =~= all);
    }
    let mut units: Vec<Unit> = Vec::new();
    let mut at: usize = 0;
    while at < keys.len()
        invariant
            at <= keys@.len(),
            all == views(models@),
            views(keys@) == file_keys(all),
            views(units@) == flat_units(all).take(at as int),
        decreases keys@.len() - at,
    {
        proof {
            assert(views(keys@)[at as int] == keys@[at as int]@);
            assert(file_keys(all).contains(keys@[at as int]@));
        }
        let unit = unit_from_file(models, keys[at].as_str());
        proof {
            lemma_views_push(units@, unit);
            assert(flat_units(all).take(at + 1) =~= flat_units(all).take(at as int).push(unit@));
        }
        units.push(unit);
        at = at + 1;
    }
    proof {
        assert(flat_units(all).take(at as int) =~= flat_units(all));
    }
    units
}

// ---- declared groups ------------------------------------------------------------------

/// A group names one of the unit's ids.
pub open spec fn names_unit(group: Seq<Seq<char>>, unit: UnitView) -> bool {
    exists|i: int| 0 <= i < unit.ids.len() && group.contains(#[trigger] unit.ids[i])
}

/// The position of the first group that names the unit; the number of groups if none does.
pub open spec fn owner(groups: Seq<(Seq<char>, Seq<Seq<char>>)>, unit: UnitView) -> nat
    decreases groups.len(),
{
    if groups.len() == 0 {
        0
    } else if names_unit(groups[0].1, unit) {
        0
    } else {
        1 + owner(groups.skip(1), unit)
    }
}

/// The units whose first naming group is at `position`, in order.
pub open spec fn owned(
    units: Seq<UnitView>,
    groups: Seq<(Seq<char>, Seq<Seq<char>>)>,
    position: nat,
) -> Seq<UnitView> {
    units.filter(|u: UnitView| owner(groups, u) == position)
}

pub open spec fn unit_ids(units: Seq<UnitView>) -> Seq<Seq<char>>
    decreases units.len(),
{
    if units.len() == 0 {
        Seq::empty()
    } else {
        unit_ids(units.drop_last()) + units.last().ids
    }
}

pub open spec fn largest_unit(units: Seq<UnitView>) -> int
    decreases units.len(),
{
    if units.len() == 0 {
        0
    } else {
        larger(largest_unit(units.drop_last()), units.last().size)
    }
}

pub open spec fn largest_unit_host(units: Seq<UnitView>) -> Option<int>
    decreases units.len(),
{
    if units.len() == 0 {
        Some(0)
    } else {
        larger_host(largest_unit_host(units.drop_last()), units.last().host_size)
    }
}

/// The one unit that a group's units become.
pub open spec fn merged(name: Seq<char>, members: Seq<UnitView>) -> UnitView {
    UnitView {
        key: safe_name(name),
        ids: unit_ids(members),
        size: largest_unit(members),
        host_size: largest_unit_host(members),
    }
}

/// One unit per group below `bound` that any unit falls to.
pub open spec fn group_units(
    units: Seq<UnitView>,
    groups: Seq<(Seq<char>, Seq<Seq<char>>)>,
    bound: nat,
) -> Seq<UnitView>
    decreases bound,
{
    if bound == 0 {
        Seq::empty()
    } else {
        let position = (bound - 1) as nat;
        let before = group_units(units, groups, position);
        let members = owned(units, groups, position);
        if unit_ids(members).len() == 0 {
            before
        } else {
            before.push(merged(groups[position as int].0, members))
        }
    }
}

/// Units with the declared groups merged: the groups' first, then those no group names.
pub open spec fn grouped_units(
    units: Seq<UnitView>,
    groups: Seq<(Seq<char>, Seq<Seq<char>>)>,
) -> Seq<UnitView> {
    group_units(units, groups, groups.len()) + owned(units, groups, groups.len())
}

/// The knapsack units of some models under a policy.
pub open spec fn units_of(models: Seq<FootprintView>, policy: PolicyView) -> Seq<UnitView> {
    if policy.strategy == Strategy::Family {
        grouped_units(flat_units(models), policy.groups)
    } else {
        flat_units(models)
    }
}

impl Unit {
    fn copy(&self) -> (r: Unit)
        ensures
            r@ == self@,
    {
        Unit {
            key: self.key.clone(),
            ids: copied_names(&self.ids),
            size: self.size,
            host_size: self.host_size,
        }
    }
}

/// A list with the same names.
pub fn copied_names(names: &Vec<String>) -> (r: Vec<String>)
    ensures
        views(r@) == views(names@),
{
    let mut r: Vec<String> = Vec::new();
    append_names(&mut r, names);
    proof {
        assert(views(r@) =~= views(names@));
    }
    r
}

/// Add `names` to the end of `list`.
pub fn append_names(list: &mut Vec<String>, names: &Vec<String>)
    ensures
        views(final(list)@) == views(old(list)@) + views(names@),
{
    let mut at: usize = 0;
    let ghost before = views(list@);
    proof {
        assert(before + views(names@).take(0) =~= before);
    }
    while at < names.len()
        invariant
            at <= names@.len(),
            before == views(old(list)@),
            views(list@) == before + views(names@).take(at as int),
        decreases names@.len() - at,
    {
        let name = names[at].clone();
        proof {
            lemma_views_push(list@, name);
            assert(before + views(names@).take(at + 1) =~= (before + views(names@).take(
                at as int,
            )).push(name@));
        }
        list.push(name);
        at = at + 1;
    }
    proof {
        assert(views(names@).take(at as int) =~= views(names@));
    }
}

fn group_names(group: &Vec<String>, unit: &Unit) -> (r: bool)
    ensures
        r == names_unit(views(group@), unit@),
{
    let mut at: usize = 0;
    while at < unit.ids.len()
        invariant
            at <= unit.ids@.len(),
            forall|i: int|
                0 <= i < at ==> !views(group@).contains(#[trigger] unit@.ids[i]),
        decreases unit.ids@.len() - at,
    {
        if has_name(group, unit.ids[at].as_str()) {
            proof {
                assert(unit@.ids[at as int] == unit.ids@[at as int]@);
            }
            return true;
        }
        proof {
            assert(unit@.ids[at as int] == unit.ids@[at as int]@);
        }
        at = at + 1;
    }
    false
}

proof fn lemma_owner_bounded(groups: Seq<(Seq<char>, Seq<Seq<char>>)>, unit: UnitView)
    ensures
        owner(groups, unit) <= groups.len(),
    decreases groups.len(),
{
    if groups.len() > 0 {
        lemma_owner_bounded(groups.skip(1), unit);
    }
}

fn owner_of(policy: &Policy, unit: &Unit) -> (position: usize)
    ensures
        position == owner(policy@.groups, unit@),
        position <= policy@.groups.len(),
{
    let ghost groups = policy@.groups;
    let mut position: usize = 0;
    proof {
        assert(groups.skip(0) =~= groups);
        lemma_owner_bounded(groups, unit@);
    }
    loop
        invariant
            groups == policy@.groups,
            position <= groups.len(),
            owner(groups, unit@) == position + owner(groups.skip(position as int), unit@),
        decreases groups.len() - position,
    {
        match group_entry(&policy.groups, position) {
            Some((_, ids)) => {
                proof {
                    assert(groups.skip(position as int).skip(1) =~= groups.skip(position + 1));
                }
                if group_names(ids, unit) {
                    return position;
                }
                position = position + 1;
            },
            None => {
                return position;
            },
        }
    }
}

/// The positions, in order, of the units that fall to the group at `position`.
fn owned_units(units: &Vec<Unit>, owners: &Vec<usize>, position: usize, policy: &Policy) -> (r: Vec<
    Unit,
>)
    requires
        owners@.len() == units@.len(),
        forall|i: int|
            0 <= i < owners@.len() ==> #[trigger] owners@[i] == owner(policy@.groups, units@[i]@),
    ensures
        views(r@) == owned(views(units@), policy@.groups, position as nat),
{
    let ghost all = views(units@);
    let ghost pred = |u: UnitView| owner(policy@.groups, u) == position as nat;
    let mut r: Vec<Unit> = Vec::new();
    let mut at: usize = 0;
    proof {
        reveal(Seq::filter);
        assert(all.take(0).filter(pred) =~= views(r@));
    }
    while at < units.len()
        invariant
            at <= units@.len(),
            all == views(units@),
            owners@.len() == units@.len(),
            forall|i: int|
                0 <= i < owners@.len() ==> #[trigger] owners@[i] == owner(
                    policy@.groups,
                    units@[i]@,
                ),
            pred == (|u: UnitView| owner(policy@.groups, u) == position as nat),
            views(r@) == all.take(at as int).filter(pred),
        decreases units@.len() - at,
    {
        proof {
            reveal(Seq::filter);
            assert(all.take(at + 1).drop_last() =~= all.take(at as int));
            assert(owners@[at as int] == owner(policy@.groups, all[at as int]));
        }
        if owners[at] == position {
            let unit = units[at].copy();
            proof {
                lemma_views_push(r@, unit);
            }
            r.push(unit);
        }
        at = at + 1;
    }
    proof {
        assert(all.take(at as int) =~= all);
    }
    r
}

fn merge(name: &str, members: &Vec<Unit>) -> (unit: Unit)
    ensures
        unit@ == merged(name@, views(members@)),
{
    let ghost all = views(members@);
    let mut ids: Vec<String> = Vec::new();
    let mut size: i64 = 0;
    let mut host_size: Option<i64> = Some(0);
    let mut at: usize = 0;
    proof {
        assert(views(ids@) =~= unit_ids(all.take(0)));
    }
    while at < members.len()
        invariant
            at <= members@.len(),
            all == views(members@),
            views(ids@) == unit_ids(all.take(at as int)),
            size == largest_unit(all.take(at as int)),
            amount_view(host_size) == largest_unit_host(all.take(at as int)),
        decreases members@.len() - at,
    {
        let unit = &members[at];
        proof {
            assert(all.take(at + 1).drop_last() =~= all.take(at as int));
            assert(all.take(at + 1).last() == unit@);
        }
        append_names(&mut ids, &unit.ids);
        size = larger_of(size, unit.size);
        host_size = larger_host_of(host_size, unit.host_size);
        at = at + 1;
    }
    proof {
        assert(all.take(at as int) =~= all);
    }
    Unit { key: safe_key(name), ids, size, host_size }
}

/// Merge the units that a declared group names into one unit per group.
fn apply_groups(units: &Vec<Unit>, policy: &Policy) -> (r: Vec<Unit>)
    ensures
        views(r@) == grouped_units(views(units@), policy@.groups),
{
    let ghost all = views(units@);
    let ghost groups = policy@.groups;
    let mut owners: Vec<usize> = Vec::new();
    let mut at: usize = 0;
    while at < units.len()
        invariant
            at <= units@.len(),
            owners@.len() == at,
            forall|i: int|
                0 <= i < owners@.len() ==> #[trigger] owners@[i] == owner(
                    policy@.groups,
                    units@[i]@,
                ),
        decreases units@.len() - at,
    {
        owners.push(owner_of(policy, &units[at]));
        at = at + 1;
    }
    let mut r: Vec<Unit> = Vec::new();
    let mut position: usize = 0;
    proof {
        assert(views(r@) =~= group_units(all, groups, 0));
    }
    loop
        invariant
            all == views(units@),
            groups == policy@.groups,
            position <= groups.len(),
            owners@.len() == units@.len(),
            forall|i: int|
                0 <= i < owners@.len() ==> #[trigger] owners@[i] == owner(
                    policy@.groups,
                    units@[i]@,
                ),
            views(r@) == group_units(all, groups, position as nat),
        decreases groups.len() - position,
    {
        let members = owned_units(units, &owners, position, policy);
        match group_entry(&policy.groups, position) {
            Some((name, _)) => {
                let unit = merge(name.as_str(), &members);
                if unit.ids.len() > 0 {
                    proof {
                        lemma_views_push(r@, unit);
                    }
                    r.push(unit);
                }
                position = position + 1;
            },
            None => {
                let mut rest = members;
                let ghost before = r@;
                let ghost after = rest@;
                r.append(&mut rest);
                proof {
                    assert(views(before + after) =~= views(before) + views(after));
                }
                return r;
            },
        }
    }
}

/// Collapse conversational models into logical units: models that share a weight file are
/// one, and under [`Strategy::Family`] so are units that a declared group names.
pub fn collapse_units(llm_models: &Vec<&ModelFootprint>, policy: &Policy) -> (units: Vec<Unit>)
    ensures
        views(units@) == units_of(views(llm_models@), policy@),
{
    let units = units_by_file(llm_models);
    match policy.strategy {
        Strategy::Family => apply_groups(&units, policy),
        Strategy::Flat => units,
    }
}

// ---- what units promise -----------------------------------------------------------------

/// A unit has a member, and its size is not below zero.
pub open spec fn sound_unit(unit: UnitView) -> bool {
    unit.ids.len() > 0 && unit.size >= 0
}

/// The unit holds a model: it names it, and is at least its size.
pub open spec fn holds(unit: UnitView, model: FootprintView) -> bool {
    unit.ids.contains(model.id) && model.d_total <= unit.size
}

proof fn lemma_largest(models: Seq<FootprintView>)
    ensures
        largest(models) >= 0,
        forall|i: int| 0 <= i < models.len() ==> #[trigger] models[i].d_total <= largest(models),
    decreases models.len(),
{
    if models.len() > 0 {
        lemma_largest(models.drop_last());
        assert forall|i: int| 0 <= i < models.len() implies #[trigger] models[i].d_total <= largest(
            models,
        ) by {
            if i < models.len() - 1 {
                assert(models[i] == models.drop_last()[i]);
            }
        }
    }
}

proof fn lemma_largest_unit(units: Seq<UnitView>)
    ensures
        largest_unit(units) >= 0,
        forall|i: int| 0 <= i < units.len() ==> #[trigger] units[i].size <= largest_unit(units),
        forall|i: int, id: Seq<char>|
            0 <= i < units.len() && #[trigger] units[i].ids.contains(id) ==> unit_ids(
                units,
            ).contains(id),
    decreases units.len(),
{
    if units.len() > 0 {
        let fewer = units.drop_last();
        lemma_largest_unit(fewer);
        assert forall|i: int| 0 <= i < units.len() implies #[trigger] units[i].size
            <= largest_unit(units) by {
            if i < fewer.len() {
                assert(units[i] == fewer[i]);
            }
        }
        assert forall|i: int, id: Seq<char>|
            0 <= i < units.len() && #[trigger] units[i].ids.contains(id) implies unit_ids(
            units,
        ).contains(id) by {
            if i < fewer.len() {
                assert(units[i] == fewer[i]);
                assert(unit_ids(fewer).contains(id));
                let k = choose|k: int|
                    0 <= k < unit_ids(fewer).len() && unit_ids(fewer)[k] == id;
                assert(unit_ids(units)[k] == id);
            } else {
                let k = choose|k: int| 0 <= k < units[i].ids.len() && units[i].ids[k] == id;
                assert(unit_ids(units)[unit_ids(fewer).len() + k] == id);
            }
        }
    }
}

proof fn lemma_file_unit(models: Seq<FootprintView>, key: Seq<char>)
    requires
        file_keys(models).contains(key),
    ensures
        sound_unit(unit_of_file(models, key)),
        forall|i: int|
            0 <= i < models.len() && file_key(#[trigger] models[i]) == key ==> holds(
                unit_of_file(models, key),
                models[i],
            ),
{
    let pred = |m: FootprintView| file_key(m) == key;
    let members = variants(models, key);
    lemma_key_has_variant(models, key);
    lemma_largest(members);
    assert forall|i: int|
        0 <= i < models.len() && file_key(#[trigger] models[i]) == key implies holds(
        unit_of_file(models, key),
        models[i],
    ) by {
        lemma_filter(models, pred);
        assert(pred(models[i]));
        assert(members.contains(models[i]));
        let k = choose|k: int| 0 <= k < members.len() && members[k] == models[i];
        assert(model_ids(members)[k] == models[i].id);
    }
}

proof fn lemma_file_keys_cover(models: Seq<FootprintView>, i: int)
    requires
        0 <= i < models.len(),
    ensures
        file_keys(models).contains(file_key(models[i])),
    decreases models.len(),
{
    let before = file_keys(models.drop_last());
    if i < models.len() - 1 {
        lemma_file_keys_cover(models.drop_last(), i);
        let k = choose|k: int| 0 <= k < before.len() && before[k] == file_key(models[i]);
        assert(file_keys(models)[k] == file_key(models[i]));
    } else if !before.contains(file_key(models.last())) {
        assert(file_keys(models)[before.len() as int] == file_key(models[i]));
    }
}

proof fn lemma_flat_units_sound(models: Seq<FootprintView>)
    ensures
        forall|u: int| 0 <= u < flat_units(models).len() ==> sound_unit(#[trigger] flat_units(models)[u]),
{
    assert forall|u: int| 0 <= u < flat_units(models).len() implies sound_unit(
        #[trigger] flat_units(models)[u],
    ) by {
        assert(file_keys(models).contains(file_keys(models)[u]));
        lemma_file_unit(models, file_keys(models)[u]);
    }
}

proof fn lemma_group_units_sound(
    units: Seq<UnitView>,
    groups: Seq<(Seq<char>, Seq<Seq<char>>)>,
    bound: nat,
)
    requires
        bound <= groups.len(),
    ensures
        forall|u: int|
            0 <= u < group_units(units, groups, bound).len() ==> sound_unit(
                #[trigger] group_units(units, groups, bound)[u],
            ),
    decreases bound,
{
    if bound > 0 {
        let position = (bound - 1) as nat;
        let before = group_units(units, groups, position);
        lemma_group_units_sound(units, groups, position);
        lemma_largest_unit(owned(units, groups, position));
        assert forall|u: int| 0 <= u < group_units(units, groups, bound).len() implies sound_unit(
            #[trigger] group_units(units, groups, bound)[u],
        ) by {
            if u < before.len() {
                assert(group_units(units, groups, bound)[u] == before[u]);
            }
        }
    }
}

/// Every unit names at least one model and has no negative size.
pub proof fn law_units_are_sound(models: Seq<FootprintView>, policy: PolicyView)
    ensures
        forall|u: int|
            0 <= u < units_of(models, policy).len() ==> sound_unit(
                #[trigger] units_of(models, policy)[u],
            ),
{
    let flat = flat_units(models);
    let groups = policy.groups;
    lemma_flat_units_sound(models);
    lemma_group_units_sound(flat, groups, groups.len());
    let rest = owned(flat, groups, groups.len());
    assert forall|u: int| 0 <= u < rest.len() implies sound_unit(#[trigger] rest[u]) by {
        lemma_filter(flat, |unit: UnitView| owner(groups, unit) == groups.len());
        assert(flat.contains(rest[u]));
    }
}

proof fn lemma_group_units_hold(
    units: Seq<UnitView>,
    groups: Seq<(Seq<char>, Seq<Seq<char>>)>,
    bound: nat,
    i: int,
    model: FootprintView,
)
    requires
        bound <= groups.len(),
        0 <= i < units.len(),
        holds(units[i], model),
        owner(groups, units[i]) < bound,
    ensures
        exists|u: int|
            0 <= u < group_units(units, groups, bound).len() && holds(
                #[trigger] group_units(units, groups, bound)[u],
                model,
            ),
    decreases bound,
{
    let position = (bound - 1) as nat;
    let before = group_units(units, groups, position);
    if owner(groups, units[i]) < position {
        lemma_group_units_hold(units, groups, position, i, model);
        let u = choose|u: int| 0 <= u < before.len() && holds(#[trigger] before[u], model);
        assert(group_units(units, groups, bound)[u] == before[u]);
    } else {
        let pred = |unit: UnitView| owner(groups, unit) == position;
        let members = owned(units, groups, position);
        lemma_filter(units, pred);
        assert(pred(units[i]));
        assert(members.contains(units[i]));
        let k = choose|k: int| 0 <= k < members.len() && members[k] == units[i];
        lemma_largest_unit(members);
        assert(members[k].ids.contains(model.id));
        assert(unit_ids(members).contains(model.id));
        assert(holds(merged(groups[position as int].0, members), model));
        assert(group_units(units, groups, bound)[before.len() as int] == merged(
            groups[position as int].0,
            members,
        ));
    }
}

/// Every model is in some unit that is at least its size, so a set that holds the unit
/// holds whichever variant is loaded.
pub proof fn law_every_model_is_in_a_unit_that_holds_it(
    models: Seq<FootprintView>,
    policy: PolicyView,
    i: int,
)
    requires
        0 <= i < models.len(),
    ensures
        exists|u: int|
            0 <= u < units_of(models, policy).len() && holds(
                #[trigger] units_of(models, policy)[u],
                models[i],
            ),
{
    let flat = flat_units(models);
    let groups = policy.groups;
    let key = file_key(models[i]);
    lemma_file_keys_cover(models, i);
    let f = choose|f: int| 0 <= f < file_keys(models).len() && file_keys(models)[f] == key;
    lemma_file_unit(models, key);
    assert(holds(flat[f], models[i]));
    if policy.strategy == Strategy::Family {
        lemma_owner_bounded(groups, flat[f]);
        if owner(groups, flat[f]) < groups.len() {
            lemma_group_units_hold(flat, groups, groups.len(), f, models[i]);
            let named = group_units(flat, groups, groups.len());
            let u = choose|u: int| 0 <= u < named.len() && holds(#[trigger] named[u], models[i]);
            assert(units_of(models, policy)[u] == named[u]);
        } else {
            let rest = owned(flat, groups, groups.len());
            let pred = |unit: UnitView| owner(groups, unit) == groups.len();
            lemma_filter(flat, pred);
            assert(pred(flat[f]));
            assert(rest.contains(flat[f]));
            let k = choose|k: int| 0 <= k < rest.len() && rest[k] == flat[f];
            let u = group_units(flat, groups, groups.len()).len() + k;
            assert(units_of(models, policy)[u as int] == flat[f]);
        }
    } else {
        assert(units_of(models, policy)[f] == flat[f]);
    }
}

proof fn lemma_file_keys_fewer(models: Seq<FootprintView>)
    ensures
        file_keys(models).len() <= models.len(),
    decreases models.len(),
{
    if models.len() > 0 {
        lemma_file_keys_fewer(models.drop_last());
    }
}

/// The units that some group below `bound` names.
spec fn owned_below(
    units: Seq<UnitView>,
    groups: Seq<(Seq<char>, Seq<Seq<char>>)>,
    bound: nat,
) -> Seq<UnitView> {
    units.filter(|u: UnitView| owner(groups, u) < bound)
}

proof fn lemma_owned_counts(
    units: Seq<UnitView>,
    groups: Seq<(Seq<char>, Seq<Seq<char>>)>,
    bound: nat,
)
    ensures
        owned_below(units, groups, bound + 1).len() == owned_below(units, groups, bound).len()
            + owned(units, groups, bound).len(),
        owned_below(units, groups, bound).len() + owned(units, groups, bound).len() <= units.len(),
        owned_below(units, groups, 0).len() == 0,
    decreases units.len(),
{
    reveal(Seq::filter);
    if units.len() > 0 {
        lemma_owned_counts(units.drop_last(), groups, bound);
    }
}

proof fn lemma_group_units_fewer(
    units: Seq<UnitView>,
    groups: Seq<(Seq<char>, Seq<Seq<char>>)>,
    bound: nat,
)
    ensures
        group_units(units, groups, bound).len() <= owned_below(units, groups, bound).len(),
    decreases bound,
{
    if bound > 0 {
        let position = (bound - 1) as nat;
        lemma_group_units_fewer(units, groups, position);
        lemma_owned_counts(units, groups, position);
        if owned(units, groups, position).len() == 0 {
            assert(unit_ids(owned(units, groups, position)).len() == 0);
        }
    }
}

/// There are never more units than models.
pub proof fn law_units_are_no_more_than_models(models: Seq<FootprintView>, policy: PolicyView)
    ensures
        units_of(models, policy).len() <= models.len(),
{
    lemma_file_keys_fewer(models);
    let flat = flat_units(models);
    lemma_group_units_fewer(flat, policy.groups, policy.groups.len());
    lemma_owned_counts(flat, policy.groups, policy.groups.len());
}

/// No two models have the same id.
pub open spec fn distinct_ids(models: Seq<FootprintView>) -> bool {
    forall|i: int, j: int|
        0 <= i < models.len() && 0 <= j < models.len() && i != j ==> (#[trigger] models[i]).id != (
        #[trigger] models[j]).id
}

proof fn lemma_flat_unit_covers(models: Seq<FootprintView>, u: int, i: int)
    requires
        distinct_ids(models),
        0 <= u < flat_units(models).len(),
        0 <= i < models.len(),
        flat_units(models)[u].ids.contains(models[i].id),
    ensures
        models[i].d_total <= flat_units(models)[u].size,
{
    let key = file_keys(models)[u];
    let pred = |m: FootprintView| file_key(m) == key;
    let members = variants(models, key);
    lemma_filter(models, pred);
    lemma_largest(members);
    let k = choose|k: int| 0 <= k < model_ids(members).len() && model_ids(members)[k] == models[i].id;
    assert(models.contains(members[k]));
    let j = choose|j: int| 0 <= j < models.len() && models[j] == members[k];
    assert(members[k].d_total <= largest(members));
}

proof fn lemma_unit_ids_come_from_units(units: Seq<UnitView>, id: Seq<char>)
    requires
        unit_ids(units).contains(id),
    ensures
        exists|i: int| 0 <= i < units.len() && (#[trigger] units[i]).ids.contains(id),
    decreases units.len(),
{
    let fewer = units.drop_last();
    let k = choose|k: int| 0 <= k < unit_ids(units).len() && unit_ids(units)[k] == id;
    if k < unit_ids(fewer).len() {
        assert(unit_ids(fewer)[k] == id);
        lemma_unit_ids_come_from_units(fewer, id);
        let i = choose|i: int| 0 <= i < fewer.len() && (#[trigger] fewer[i]).ids.contains(id);
        assert(units[i].ids.contains(id));
    } else {
        assert(units.last().ids[k - unit_ids(fewer).len()] == id);
        assert(units[units.len() - 1].ids.contains(id));
    }
}

proof fn lemma_owned_unit_covers(
    models: Seq<FootprintView>,
    groups: Seq<(Seq<char>, Seq<Seq<char>>)>,
    position: nat,
    k: int,
    i: int,
)
    requires
        distinct_ids(models),
        0 <= k < owned(flat_units(models), groups, position).len(),
        0 <= i < models.len(),
        owned(flat_units(models), groups, position)[k].ids.contains(models[i].id),
    ensures
        models[i].d_total <= owned(flat_units(models), groups, position)[k].size,
{
    let flat = flat_units(models);
    let members = owned(flat, groups, position);
    lemma_filter(flat, |unit: UnitView| owner(groups, unit) == position);
    assert(flat.contains(members[k]));
    let f = choose|f: int| 0 <= f < flat.len() && flat[f] == members[k];
    lemma_flat_unit_covers(models, f, i);
}

proof fn lemma_group_unit_covers(
    models: Seq<FootprintView>,
    groups: Seq<(Seq<char>, Seq<Seq<char>>)>,
    bound: nat,
    u: int,
    i: int,
)
    requires
        distinct_ids(models),
        bound <= groups.len(),
        0 <= u < group_units(flat_units(models), groups, bound).len(),
        0 <= i < models.len(),
        group_units(flat_units(models), groups, bound)[u].ids.contains(models[i].id),
    ensures
        models[i].d_total <= group_units(flat_units(models), groups, bound)[u].size,
    decreases bound,
{
    let flat = flat_units(models);
    let position = (bound - 1) as nat;
    let before = group_units(flat, groups, position);
    if u < before.len() {
        assert(group_units(flat, groups, bound)[u] == before[u]);
        lemma_group_unit_covers(models, groups, position, u, i);
    } else {
        let members = owned(flat, groups, position);
        lemma_unit_ids_come_from_units(members, models[i].id);
        let k = choose|k: int|
            0 <= k < members.len() && (#[trigger] members[k]).ids.contains(models[i].id);
        lemma_owned_unit_covers(models, groups, position, k, i);
        lemma_largest_unit(members);
        assert(members[k].size <= largest_unit(members));
    }
}

/// A unit is at least as large as every model it names: whichever of its alternatives is
/// loaded, the unit's size is enough.
pub proof fn law_units_hold_whichever_member_is_loaded(
    models: Seq<FootprintView>,
    policy: PolicyView,
    u: int,
    i: int,
)
    requires
        distinct_ids(models),
        0 <= u < units_of(models, policy).len(),
        0 <= i < models.len(),
        units_of(models, policy)[u].ids.contains(models[i].id),
    ensures
        models[i].d_total <= units_of(models, policy)[u].size,
{
    let flat = flat_units(models);
    let groups = policy.groups;
    if policy.strategy == Strategy::Family {
        let named = group_units(flat, groups, groups.len());
        if u < named.len() {
            assert(units_of(models, policy)[u] == named[u]);
            lemma_group_unit_covers(models, groups, groups.len(), u, i);
        } else {
            let k = u - named.len();
            assert(units_of(models, policy)[u] == owned(flat, groups, groups.len())[k]);
            lemma_owned_unit_covers(models, groups, groups.len(), k, i);
        }
    } else {
        lemma_flat_unit_covers(models, u, i);
    }
}

proof fn lemma_largest_host(models: Seq<FootprintView>)
    ensures
        largest_host(models) is Some ==> largest_host(models)->0 >= 0,
    decreases models.len(),
{
    if models.len() > 0 {
        lemma_largest_host(models.drop_last());
    }
}

proof fn lemma_largest_unit_host(units: Seq<UnitView>)
    ensures
        largest_unit_host(units) is Some ==> largest_unit_host(units)->0 >= 0,
    decreases units.len(),
{
    if units.len() > 0 {
        lemma_largest_unit_host(units.drop_last());
    }
}

proof fn lemma_group_units_host(
    units: Seq<UnitView>,
    groups: Seq<(Seq<char>, Seq<Seq<char>>)>,
    bound: nat,
    u: int,
)
    requires
        bound <= groups.len(),
        0 <= u < group_units(units, groups, bound).len(),
        group_units(units, groups, bound)[u].host_size is Some,
    ensures
        group_units(units, groups, bound)[u].host_size->0 >= 0,
    decreases bound,
{
    let position = (bound - 1) as nat;
    let before = group_units(units, groups, position);
    if u < before.len() {
        lemma_group_units_host(units, groups, position, u);
    } else {
        lemma_largest_unit_host(owned(units, groups, position));
    }
}

/// No unit's host cost is below zero, where it is known.
pub proof fn lemma_units_host(models: Seq<FootprintView>, policy: PolicyView, u: int)
    requires
        0 <= u < units_of(models, policy).len(),
        units_of(models, policy)[u].host_size is Some,
    ensures
        units_of(models, policy)[u].host_size->0 >= 0,
{
    let flat = flat_units(models);
    let groups = policy.groups;
    assert forall|f: int| 0 <= f < flat.len() && (#[trigger] flat[f]).host_size is Some implies flat[f].host_size->0
        >= 0 by {
        lemma_largest_host(variants(models, file_keys(models)[f]));
    }
    if policy.strategy == Strategy::Family {
        let named = group_units(flat, groups, groups.len());
        if u < named.len() {
            lemma_group_units_host(flat, groups, groups.len(), u);
        } else {
            let rest = owned(flat, groups, groups.len());
            lemma_filter(flat, |unit: UnitView| owner(groups, unit) == groups.len());
            assert(flat.contains(rest[u - named.len()]));
        }
    }
}

// ---- which models are one, and how large ---------------------------------------------------

proof fn lemma_member_of_file(models: Seq<FootprintView>, key: Seq<char>, i: int)
    requires
        0 <= i < models.len(),
        file_key(models[i]) == key,
    ensures
        model_ids(variants(models, key)).contains(models[i].id),
{
    let members = variants(models, key);
    lemma_filter(models, |m: FootprintView| file_key(m) == key);
    assert(members.contains(models[i]));
    let k = choose|k: int| 0 <= k < members.len() && members[k] == models[i];
    assert(model_ids(members)[k] == models[i].id);
}

/// Without grouping, entries with the same weight file are one unit, which names each of them.
pub proof fn law_one_file_is_one_unit(
    models: Seq<FootprintView>,
    policy: PolicyView,
    i: int,
    j: int,
) -> (u: int)
    requires
        policy.strategy == Strategy::Flat,
        0 <= i < models.len(),
        0 <= j < models.len(),
        models[i].primary_file is Some,
        models[i].primary_file == models[j].primary_file,
    ensures
        0 <= u < units_of(models, policy).len(),
        units_of(models, policy)[u].ids.contains(models[i].id),
        units_of(models, policy)[u].ids.contains(models[j].id),
{
    let key = models[i].primary_file->0;
    lemma_file_keys_cover(models, i);
    let keys = file_keys(models);
    let u = choose|u: int| 0 <= u < keys.len() && keys[u] == key;
    lemma_member_of_file(models, key, i);
    lemma_member_of_file(models, key, j);
    u
}

/// Without grouping, different weight files are different units: no unit names two models that
/// load different files, so nothing keeps the two from being resident together.
pub proof fn law_different_files_are_different_units(
    models: Seq<FootprintView>,
    policy: PolicyView,
    u: int,
    i: int,
    j: int,
)
    requires
        policy.strategy == Strategy::Flat,
        distinct_ids(models),
        0 <= u < units_of(models, policy).len(),
        0 <= i < models.len(),
        0 <= j < models.len(),
        models[i].primary_file is Some,
        models[j].primary_file is Some,
        models[i].primary_file != models[j].primary_file,
    ensures
        !(units_of(models, policy)[u].ids.contains(models[i].id) && units_of(
            models,
            policy,
        )[u].ids.contains(models[j].id)),
{
    let key = file_keys(models)[u];
    if units_of(models, policy)[u].ids.contains(models[i].id) {
        lemma_named_has_key(models, key, i);
    }
    if units_of(models, policy)[u].ids.contains(models[j].id) {
        lemma_named_has_key(models, key, j);
    }
}

proof fn lemma_named_has_key(models: Seq<FootprintView>, key: Seq<char>, i: int)
    requires
        distinct_ids(models),
        0 <= i < models.len(),
        model_ids(variants(models, key)).contains(models[i].id),
    ensures
        file_key(models[i]) == key,
{
    let members = variants(models, key);
    lemma_filter(models, |m: FootprintView| file_key(m) == key);
    let k = choose|k: int|
        0 <= k < model_ids(members).len() && model_ids(members)[k] == models[i].id;
    assert(models.contains(members[k]));
    let j = choose|j: int| 0 <= j < models.len() && models[j] == members[k];
    assert(j == i);
}

proof fn lemma_largest_is_one(models: Seq<FootprintView>)
    ensures
        largest(models) == 0 || exists|i: int|
            0 <= i < models.len() && (#[trigger] models[i]).d_total == largest(models),
    decreases models.len(),
{
    if models.len() > 0 {
        let fewer = models.drop_last();
        lemma_largest_is_one(fewer);
        if largest(models) == models.last().d_total {
            assert(models[models.len() - 1].d_total == largest(models));
        } else if largest(fewer) != 0 {
            let i = choose|i: int|
                0 <= i < fewer.len() && (#[trigger] fewer[i]).d_total == largest(fewer);
            assert(models[i].d_total == largest(models));
        }
    }
}

/// A unit reserves no more than its largest member holds: its size is that of a model it names,
/// or nothing.
pub proof fn law_a_unit_is_no_larger_than_its_largest_member(
    models: Seq<FootprintView>,
    policy: PolicyView,
    u: int,
)
    requires
        0 <= u < units_of(models, policy).len(),
    ensures
        units_of(models, policy)[u].size == 0 || exists|i: int|
            0 <= i < models.len() && units_of(models, policy)[u].ids.contains(
                (#[trigger] models[i]).id,
            ) && models[i].d_total == units_of(models, policy)[u].size,
{
    let flat = flat_units(models);
    let groups = policy.groups;
    if policy.strategy == Strategy::Family {
        let named = group_units(flat, groups, groups.len());
        if u < named.len() {
            assert(units_of(models, policy)[u] == named[u]);
            lemma_group_unit_is_tight(models, groups, groups.len(), u);
        } else {
            let rest = owned(flat, groups, groups.len());
            lemma_filter(flat, |unit: UnitView| owner(groups, unit) == groups.len());
            assert(flat.contains(rest[u - named.len()]));
            let f = choose|f: int| 0 <= f < flat.len() && flat[f] == rest[u - named.len()];
            lemma_flat_unit_is_tight(models, f);
        }
    } else {
        lemma_flat_unit_is_tight(models, u);
    }
}

/// A unit's size is that of one of these models that it names, or nothing.
spec fn is_tight(models: Seq<FootprintView>, unit: UnitView) -> bool {
    unit.size == 0 || exists|i: int|
        0 <= i < models.len() && unit.ids.contains((#[trigger] models[i]).id) && models[i].d_total
            == unit.size
}

proof fn lemma_flat_unit_is_tight(models: Seq<FootprintView>, u: int)
    requires
        0 <= u < flat_units(models).len(),
    ensures
        is_tight(models, flat_units(models)[u]),
{
    let key = file_keys(models)[u];
    let members = variants(models, key);
    lemma_filter(models, |m: FootprintView| file_key(m) == key);
    lemma_largest_is_one(members);
    if largest(members) != 0 {
        let k = choose|k: int|
            0 <= k < members.len() && (#[trigger] members[k]).d_total == largest(members);
        assert(models.contains(members[k]));
        let i = choose|i: int| 0 <= i < models.len() && models[i] == members[k];
        assert(model_ids(members)[k] == models[i].id);
        assert(flat_units(models)[u].ids.contains(models[i].id));
    }
}

proof fn lemma_largest_unit_is_one(units: Seq<UnitView>)
    ensures
        largest_unit(units) == 0 || exists|i: int|
            0 <= i < units.len() && (#[trigger] units[i]).size == largest_unit(units),
        forall|i: int, id: Seq<char>|
            0 <= i < units.len() && (#[trigger] units[i]).ids.contains(id) ==> (
            #[trigger] unit_ids(units).contains(id)),
    decreases units.len(),
{
    if units.len() > 0 {
        let fewer = units.drop_last();
        lemma_largest_unit_is_one(fewer);
        if largest_unit(units) == units.last().size {
            assert(units[units.len() - 1].size == largest_unit(units));
        } else if largest_unit(fewer) != 0 {
            let i = choose|i: int|
                0 <= i < fewer.len() && (#[trigger] fewer[i]).size == largest_unit(fewer);
            assert(units[i].size == largest_unit(units));
        }
        assert forall|i: int, id: Seq<char>|
            0 <= i < units.len() && (#[trigger] units[i]).ids.contains(id) implies (
        #[trigger] unit_ids(units).contains(id)) by {
            if i < fewer.len() {
                assert(fewer[i].ids.contains(id));
                assert(unit_ids(fewer).contains(id));
                let k = choose|k: int|
                    0 <= k < unit_ids(fewer).len() && unit_ids(fewer)[k] == id;
                assert(unit_ids(units)[k] == id);
            } else {
                let k = choose|k: int| 0 <= k < units[i].ids.len() && units[i].ids[k] == id;
                assert(unit_ids(units)[unit_ids(fewer).len() + k] == id);
            }
        }
    }
}

proof fn lemma_group_unit_is_tight(
    models: Seq<FootprintView>,
    groups: Seq<(Seq<char>, Seq<Seq<char>>)>,
    bound: nat,
    u: int,
)
    requires
        bound <= groups.len(),
        0 <= u < group_units(flat_units(models), groups, bound).len(),
    ensures
        is_tight(models, group_units(flat_units(models), groups, bound)[u]),
    decreases bound,
{
    let flat = flat_units(models);
    let position = (bound - 1) as nat;
    let before = group_units(flat, groups, position);
    if u < before.len() {
        assert(group_units(flat, groups, bound)[u] == before[u]);
        lemma_group_unit_is_tight(models, groups, position, u);
    } else {
        let members = owned(flat, groups, position);
        let unit = group_units(flat, groups, bound)[u];
        lemma_largest_unit_is_one(members);
        if largest_unit(members) != 0 {
            let k = choose|k: int|
                0 <= k < members.len() && (#[trigger] members[k]).size == largest_unit(members);
            lemma_filter(flat, |unit: UnitView| owner(groups, unit) == position);
            assert(flat.contains(members[k]));
            let f = choose|f: int| 0 <= f < flat.len() && flat[f] == members[k];
            lemma_flat_unit_is_tight(models, f);
            let i = choose|i: int|
                0 <= i < models.len() && flat[f].ids.contains((#[trigger] models[i]).id)
                    && models[i].d_total == flat[f].size;
            assert(members[k].ids.contains(models[i].id));
            assert(unit_ids(members).contains(models[i].id));
            assert(unit.ids.contains(models[i].id) && models[i].d_total == unit.size);
        }
    }
}

/// Where the strategy goes by families, two models of different files that one group names are
/// one unit, so that they exclude each other.
pub proof fn law_a_group_is_one_unit(
    models: Seq<FootprintView>,
    policy: PolicyView,
    g: int,
    i: int,
    j: int,
) -> (u: int)
    requires
        policy.strategy == Strategy::Family,
        distinct_ids(models),
        0 <= g < policy.groups.len(),
        0 <= i < models.len(),
        0 <= j < models.len(),
        policy.groups[g].1.contains(models[i].id),
        policy.groups[g].1.contains(models[j].id),
        forall|h: int, m: int|
            0 <= h < g && 0 <= m < models.len() ==> !(#[trigger] policy.groups[h]).1.contains(
                (#[trigger] models[m]).id,
            ),
    ensures
        0 <= u < units_of(models, policy).len(),
        units_of(models, policy)[u].ids.contains(models[i].id),
        units_of(models, policy)[u].ids.contains(models[j].id),
{
    let flat = flat_units(models);
    let groups = policy.groups;
    let a = lemma_flat_unit_named(models, i);
    let b = lemma_flat_unit_named(models, j);
    lemma_owner_is(models, groups, flat[a], g, models[i].id);
    lemma_owner_is(models, groups, flat[b], g, models[j].id);
    lemma_group_unit_names(flat, groups, groups.len(), g, a, models[i].id, b, models[j].id)
}

proof fn lemma_flat_unit_named(models: Seq<FootprintView>, i: int) -> (f: int)
    requires
        0 <= i < models.len(),
    ensures
        0 <= f < flat_units(models).len(),
        flat_units(models)[f].ids.contains(models[i].id),
        forall|id: Seq<char>|
            #[trigger] flat_units(models)[f].ids.contains(id) ==> exists|m: int|
                0 <= m < models.len() && (#[trigger] models[m]).id == id,
{
    let key = file_key(models[i]);
    lemma_file_keys_cover(models, i);
    let keys = file_keys(models);
    let f = choose|f: int| 0 <= f < keys.len() && keys[f] == key;
    lemma_member_of_file(models, key, i);
    let members = variants(models, key);
    lemma_filter(models, |m: FootprintView| file_key(m) == key);
    assert forall|id: Seq<char>| #[trigger] flat_units(models)[f].ids.contains(id) implies exists|
        m: int,
    | 0 <= m < models.len() && (#[trigger] models[m]).id == id by {
        let k = choose|k: int| 0 <= k < model_ids(members).len() && model_ids(members)[k] == id;
        assert(models.contains(members[k]));
        let m = choose|m: int| 0 <= m < models.len() && models[m] == members[k];
        assert(models[m].id == id);
    }
    f
}

proof fn lemma_owner_is(
    models: Seq<FootprintView>,
    groups: Seq<(Seq<char>, Seq<Seq<char>>)>,
    unit: UnitView,
    g: int,
    id: Seq<char>,
)
    requires
        0 <= g < groups.len(),
        unit.ids.contains(id),
        groups[g].1.contains(id),
        forall|other: Seq<char>|
            #[trigger] unit.ids.contains(other) ==> exists|m: int|
                0 <= m < models.len() && (#[trigger] models[m]).id == other,
        forall|h: int, m: int|
            0 <= h < g && 0 <= m < models.len() ==> !(#[trigger] groups[h]).1.contains(
                (#[trigger] models[m]).id,
            ),
    ensures
        owner(groups, unit) == g,
    decreases g,
{
    if g == 0 {
        let k = choose|k: int| 0 <= k < unit.ids.len() && unit.ids[k] == id;
        assert(groups[0].1.contains(unit.ids[k]));
    } else {
        if names_unit(groups[0].1, unit) {
            let k = choose|k: int|
                0 <= k < unit.ids.len() && groups[0].1.contains(#[trigger] unit.ids[k]);
            assert(unit.ids.contains(unit.ids[k]));
            let m = choose|m: int| 0 <= m < models.len() && (#[trigger] models[m]).id == unit.ids[k];
            assert(!groups[0].1.contains(models[m].id));
        }
        let rest = groups.skip(1);
        assert forall|h: int, m: int| 0 <= h < g - 1 && 0 <= m < models.len() implies !(
        #[trigger] rest[h]).1.contains((#[trigger] models[m]).id) by {
            assert(!groups[h + 1].1.contains(models[m].id));
        }
        lemma_owner_is(models, rest, unit, g - 1, id);
    }
}

proof fn lemma_group_unit_names(
    units: Seq<UnitView>,
    groups: Seq<(Seq<char>, Seq<Seq<char>>)>,
    bound: nat,
    g: int,
    a: int,
    x: Seq<char>,
    b: int,
    y: Seq<char>,
) -> (u: int)
    requires
        0 <= g < bound <= groups.len(),
        0 <= a < units.len(),
        0 <= b < units.len(),
        units[a].ids.contains(x),
        units[b].ids.contains(y),
        owner(groups, units[a]) == g,
        owner(groups, units[b]) == g,
    ensures
        0 <= u < group_units(units, groups, bound).len(),
        group_units(units, groups, bound)[u].ids.contains(x),
        group_units(units, groups, bound)[u].ids.contains(y),
    decreases bound,
{
    let position = (bound - 1) as nat;
    let before = group_units(units, groups, position);
    if g < position {
        let u = lemma_group_unit_names(units, groups, position, g, a, x, b, y);
        assert(group_units(units, groups, bound)[u] == before[u]);
        u
    } else {
        let members = owned(units, groups, position);
        lemma_filter(units, |unit: UnitView| owner(groups, unit) == position);
        assert(members.contains(units[a]));
        assert(members.contains(units[b]));
        let p = choose|p: int| 0 <= p < members.len() && members[p] == units[a];
        let q = choose|q: int| 0 <= q < members.len() && members[q] == units[b];
        lemma_largest_unit_is_one(members);
        assert(members[p].ids.contains(x));
        assert(members[q].ids.contains(y));
        assert(unit_ids(members).contains(x));
        assert(unit_ids(members).contains(y));
        before.len() as int
    }
}

/// The host cost of a unit is known exactly if that of each of its members is, and is then as
/// much as any of them costs.
pub proof fn law_a_file_costs_the_host_what_its_dearest_variant_does(
    models: Seq<FootprintView>,
    policy: PolicyView,
    u: int,
    i: int,
)
    requires
        policy.strategy == Strategy::Flat,
        distinct_ids(models),
        0 <= u < units_of(models, policy).len(),
        0 <= i < models.len(),
        units_of(models, policy)[u].ids.contains(models[i].id),
    ensures
        models[i].host_gb is None ==> units_of(models, policy)[u].host_size is None,
        units_of(models, policy)[u].host_size is Some ==> models[i].host_gb is Some
            && models[i].host_gb->0 <= units_of(models, policy)[u].host_size->0,
        units_of(models, policy)[u].ids.len() == 1 && models[i].host_gb is Some
            && models[i].host_gb->0 >= 0 ==> units_of(models, policy)[u].host_size
            == models[i].host_gb,
{
    let key = file_keys(models)[u];
    let members = variants(models, key);
    lemma_named_has_key(models, key, i);
    lemma_filter(models, |m: FootprintView| file_key(m) == key);
    assert(members.contains(models[i]));
    let k = choose|k: int| 0 <= k < members.len() && members[k] == models[i];
    lemma_dearest(members, k);
    if members.len() == 1 {
        assert(members.drop_last() =~= Seq::<FootprintView>::empty());
        assert(largest_host(members.drop_last()) == Some(0int));
    }
}

proof fn lemma_dearest(models: Seq<FootprintView>, k: int)
    requires
        0 <= k < models.len(),
    ensures
        models[k].host_gb is None ==> largest_host(models) is None,
        largest_host(models) is Some ==> models[k].host_gb is Some && models[k].host_gb->0
            <= largest_host(models)->0,
    decreases models.len(),
{
    if k < models.len() - 1 {
        lemma_dearest(models.drop_last(), k);
    }
}

// ---- who shares a unit with whom ----------------------------------------------------------

/// A model loads this weight file, or stands for itself under this name where it has none.
pub open spec fn loads(model: FootprintView, file: Seq<char>) -> bool {
    match model.primary_file {
        Some(own) => own == file,
        None => model.id == file,
    }
}

/// A group names a model that loads this file.
pub open spec fn claims(
    group: (Seq<char>, Seq<Seq<char>>),
    models: Seq<FootprintView>,
    file: Seq<char>,
) -> bool {
    exists|m: int|
        0 <= m < models.len() && loads(#[trigger] models[m], file) && group.1.contains(models[m].id)
}

/// The first group that claims a file, or the number of groups where none does.
pub open spec fn is_claimed_by(
    groups: Seq<(Seq<char>, Seq<Seq<char>>)>,
    models: Seq<FootprintView>,
    file: Seq<char>,
    g: int,
) -> bool {
    &&& 0 <= g <= groups.len()
    &&& g < groups.len() ==> claims(groups[g], models, file)
    &&& forall|h: int| 0 <= h < g ==> !claims(#[trigger] groups[h], models, file)
}

proof fn lemma_claims(
    group: (Seq<char>, Seq<Seq<char>>),
    models: Seq<FootprintView>,
    file: Seq<char>,
)
    ensures
        names_unit(group.1, unit_of_file(models, file)) <==> claims(group, models, file),
{
    let members = variants(models, file);
    let unit = unit_of_file(models, file);
    lemma_filter(models, |m: FootprintView| file_key(m) == file);
    if names_unit(group.1, unit) {
        let k = choose|k: int|
            0 <= k < unit.ids.len() && group.1.contains(#[trigger] unit.ids[k]);
        assert(models.contains(members[k]));
        let m = choose|m: int| 0 <= m < models.len() && models[m] == members[k];
        assert(loads(models[m], file) && group.1.contains(models[m].id));
    }
    if claims(group, models, file) {
        let m = choose|m: int|
            0 <= m < models.len() && loads(#[trigger] models[m], file) && group.1.contains(
                models[m].id,
            );
        assert(members.contains(models[m]));
        let k = choose|k: int| 0 <= k < members.len() && members[k] == models[m];
        assert(group.1.contains(unit.ids[k]));
    }
}

proof fn lemma_claimed_owner(
    groups: Seq<(Seq<char>, Seq<Seq<char>>)>,
    models: Seq<FootprintView>,
    file: Seq<char>,
    g: int,
)
    requires
        is_claimed_by(groups, models, file, g),
    ensures
        owner(groups, unit_of_file(models, file)) == g,
    decreases g,
{
    if g < groups.len() {
        lemma_claims(groups[g], models, file);
    }
    if g > 0 {
        assert(!claims(groups[0], models, file));
        lemma_claims(groups[0], models, file);
        let rest = groups.skip(1);
        assert forall|h: int| 0 <= h < g - 1 implies !claims(#[trigger] rest[h], models, file) by {
            assert(!claims(groups[h + 1], models, file));
        }
        if g < groups.len() {
            assert(rest[g - 1] == groups[g]);
        }
        lemma_claimed_owner(rest, models, file, g - 1);
    }
}

/// The unit of a file, where a list of units names one of its models.
proof fn lemma_unit_that_names(models: Seq<FootprintView>, unit: UnitView, i: int)
    requires
        distinct_ids(models),
        0 <= i < models.len(),
        flat_units(models).contains(unit),
        unit.ids.contains(models[i].id),
    ensures
        unit == unit_of_file(models, file_key(models[i])),
{
    let flat = flat_units(models);
    let f = choose|f: int| 0 <= f < flat.len() && flat[f] == unit;
    lemma_named_has_key(models, file_keys(models)[f], i);
}

proof fn lemma_named_by_owner(
    models: Seq<FootprintView>,
    groups: Seq<(Seq<char>, Seq<Seq<char>>)>,
    position: nat,
    i: int,
)
    requires
        distinct_ids(models),
        0 <= i < models.len(),
        unit_ids(owned(flat_units(models), groups, position)).contains(models[i].id),
    ensures
        owner(groups, unit_of_file(models, file_key(models[i]))) == position,
        owned(flat_units(models), groups, position).contains(
            unit_of_file(models, file_key(models[i])),
        ),
{
    let flat = flat_units(models);
    let members = owned(flat, groups, position);
    lemma_unit_ids_come_from_units(members, models[i].id);
    let k = choose|k: int|
        0 <= k < members.len() && (#[trigger] members[k]).ids.contains(models[i].id);
    lemma_filter(flat, |unit: UnitView| owner(groups, unit) == position);
    assert(flat.contains(members[k]));
    assert(owner(groups, members[k]) == position);
    lemma_unit_that_names(models, members[k], i);
    assert(members.contains(members[k]));
}

proof fn lemma_in_group(
    models: Seq<FootprintView>,
    groups: Seq<(Seq<char>, Seq<Seq<char>>)>,
    bound: nat,
    u: int,
) -> (p: nat)
    requires
        bound <= groups.len(),
        0 <= u < group_units(flat_units(models), groups, bound).len(),
    ensures
        p < bound,
        group_units(flat_units(models), groups, bound)[u] == merged(
            groups[p as int].0,
            owned(flat_units(models), groups, p),
        ),
    decreases bound,
{
    let flat = flat_units(models);
    let position = (bound - 1) as nat;
    let before = group_units(flat, groups, position);
    if u < before.len() {
        lemma_in_group(models, groups, position, u)
    } else {
        position
    }
}

/// Where the strategy goes by families, two files share a unit only if the first group that
/// claims each of them is the same; files that no group claims share none.
pub proof fn law_only_a_common_group_joins_files(
    models: Seq<FootprintView>,
    policy: PolicyView,
    u: int,
    i: int,
    j: int,
    file: Seq<char>,
    other: Seq<char>,
    g: int,
    h: int,
)
    requires
        policy.strategy == Strategy::Family,
        distinct_ids(models),
        0 <= u < units_of(models, policy).len(),
        0 <= i < models.len(),
        0 <= j < models.len(),
        loads(models[i], file),
        loads(models[j], other),
        file != other,
        is_claimed_by(policy.groups, models, file, g),
        is_claimed_by(policy.groups, models, other, h),
        g != h || g == policy.groups.len(),
    ensures
        !(units_of(models, policy)[u].ids.contains(models[i].id) && units_of(
            models,
            policy,
        )[u].ids.contains(models[j].id)),
{
    let flat = flat_units(models);
    let groups = policy.groups;
    let unit = units_of(models, policy)[u];
    lemma_claimed_owner(groups, models, file, g);
    lemma_claimed_owner(groups, models, other, h);
    if unit.ids.contains(models[i].id) && unit.ids.contains(models[j].id) {
        let named = group_units(flat, groups, groups.len());
        if u < named.len() {
            let p = lemma_in_group(models, groups, groups.len(), u);
            lemma_named_by_owner(models, groups, p, i);
            lemma_named_by_owner(models, groups, p, j);
        } else {
            let rest = owned(flat, groups, groups.len());
            lemma_filter(flat, |one: UnitView| owner(groups, one) == groups.len());
            assert(rest[u - named.len()] == unit);
            assert(flat.contains(rest[u - named.len()]));
            let f = choose|f: int| 0 <= f < flat.len() && flat[f] == unit;
            lemma_named_has_key(models, file_keys(models)[f], i);
            lemma_named_has_key(models, file_keys(models)[f], j);
        }
    }
}

/// Two models whose files the same group claims first are in one unit.
pub proof fn law_the_first_group_to_claim_a_file_has_it(
    models: Seq<FootprintView>,
    policy: PolicyView,
    i: int,
    j: int,
    file: Seq<char>,
    other: Seq<char>,
    g: int,
) -> (u: int)
    requires
        policy.strategy == Strategy::Family,
        0 <= i < models.len(),
        0 <= j < models.len(),
        loads(models[i], file),
        loads(models[j], other),
        g < policy.groups.len(),
        is_claimed_by(policy.groups, models, file, g),
        is_claimed_by(policy.groups, models, other, g),
    ensures
        0 <= u < units_of(models, policy).len(),
        units_of(models, policy)[u].ids.contains(models[i].id),
        units_of(models, policy)[u].ids.contains(models[j].id),
{
    let flat = flat_units(models);
    let groups = policy.groups;
    let keys = file_keys(models);
    lemma_claimed_owner(groups, models, file, g);
    lemma_claimed_owner(groups, models, other, g);
    lemma_file_keys_cover(models, i);
    lemma_file_keys_cover(models, j);
    let a = choose|a: int| 0 <= a < keys.len() && keys[a] == file;
    let b = choose|b: int| 0 <= b < keys.len() && keys[b] == other;
    lemma_member_of_file(models, file, i);
    lemma_member_of_file(models, other, j);
    lemma_group_unit_names(flat, groups, groups.len(), g, a, models[i].id, b, models[j].id)
}

/// Without grouping, a model without a weight file is a unit of its own.
pub proof fn law_a_model_without_a_file_is_its_own_unit(
    models: Seq<FootprintView>,
    policy: PolicyView,
    u: int,
    i: int,
    j: int,
)
    requires
        policy.strategy == Strategy::Flat,
        distinct_ids(models),
        0 <= u < units_of(models, policy).len(),
        0 <= i < models.len(),
        0 <= j < models.len(),
        i != j,
        models[i].primary_file is None,
        models[j].primary_file != Some(models[i].id),
    ensures
        !(units_of(models, policy)[u].ids.contains(models[i].id) && units_of(
            models,
            policy,
        )[u].ids.contains(models[j].id)),
{
    let key = file_keys(models)[u];
    if units_of(models, policy)[u].ids.contains(models[i].id) && units_of(
        models,
        policy,
    )[u].ids.contains(models[j].id) {
        lemma_named_has_key(models, key, i);
        lemma_named_has_key(models, key, j);
        assert(models[i].id != models[j].id);
    }
}

/// A unit is named after its first variant or its group, with `_` for what is no letter or digit.
pub proof fn law_a_key_is_its_name_made_safe(name: Seq<char>, i: int)
    requires
        0 <= i < name.len(),
    ensures
        safe_name(name).len() == name.len(),
        'a' <= name[i] <= 'z' || 'A' <= name[i] <= 'Z' || '0' <= name[i] <= '9'
            ==> safe_name(name)[i] == name[i],
        !('a' <= name[i] <= 'z' || 'A' <= name[i] <= 'Z' || '0' <= name[i] <= '9')
            ==> safe_name(name)[i] == '_',
{
}

// ---- what a unit costs the host -----------------------------------------------------------

/// What a unit costs the host is as much as any model of these that it names, and unknown where
/// that of one of them is.
spec fn is_dear_enough(models: Seq<FootprintView>, unit: UnitView, i: int) -> bool {
    &&& models[i].host_gb is None ==> unit.host_size is None
    &&& unit.host_size is Some ==> models[i].host_gb is Some && models[i].host_gb->0
        <= unit.host_size->0
}

proof fn lemma_flat_unit_is_dear_enough(models: Seq<FootprintView>, unit: UnitView, i: int)
    requires
        distinct_ids(models),
        0 <= i < models.len(),
        flat_units(models).contains(unit),
        unit.ids.contains(models[i].id),
    ensures
        is_dear_enough(models, unit, i),
{
    lemma_unit_that_names(models, unit, i);
    let key = file_key(models[i]);
    let members = variants(models, key);
    lemma_filter(models, |m: FootprintView| file_key(m) == key);
    assert(members.contains(models[i]));
    let k = choose|k: int| 0 <= k < members.len() && members[k] == models[i];
    lemma_dearest(members, k);
}

proof fn lemma_dearest_unit(units: Seq<UnitView>, k: int)
    requires
        0 <= k < units.len(),
    ensures
        units[k].host_size is None ==> largest_unit_host(units) is None,
        largest_unit_host(units) is Some ==> units[k].host_size is Some && units[k].host_size->0
            <= largest_unit_host(units)->0,
    decreases units.len(),
{
    if k < units.len() - 1 {
        lemma_dearest_unit(units.drop_last(), k);
    }
}

/// Whichever member of a unit is loaded, the unit's cost to the host is enough for it; where one
/// member's is unknown, so is the unit's.
pub proof fn law_a_unit_costs_the_host_what_its_dearest_member_does(
    models: Seq<FootprintView>,
    policy: PolicyView,
    u: int,
    i: int,
)
    requires
        distinct_ids(models),
        0 <= u < units_of(models, policy).len(),
        0 <= i < models.len(),
        units_of(models, policy)[u].ids.contains(models[i].id),
    ensures
        models[i].host_gb is None ==> units_of(models, policy)[u].host_size is None,
        units_of(models, policy)[u].host_size is Some ==> models[i].host_gb is Some
            && models[i].host_gb->0 <= units_of(models, policy)[u].host_size->0,
{
    let flat = flat_units(models);
    let groups = policy.groups;
    let unit = units_of(models, policy)[u];
    if policy.strategy == Strategy::Family {
        let named = group_units(flat, groups, groups.len());
        if u < named.len() {
            let p = lemma_in_group(models, groups, groups.len(), u);
            let members = owned(flat, groups, p);
            assert(unit == merged(groups[p as int].0, members));
            lemma_named_by_owner(models, groups, p, i);
            let own = unit_of_file(models, file_key(models[i]));
            let k = choose|k: int| 0 <= k < members.len() && members[k] == own;
            lemma_filter(flat, |one: UnitView| owner(groups, one) == p);
            assert(flat.contains(members[k]));
            lemma_member_of_file(models, file_key(models[i]), i);
            lemma_flat_unit_is_dear_enough(models, own, i);
            lemma_dearest_unit(members, k);
        } else {
            let rest = owned(flat, groups, groups.len());
            lemma_filter(flat, |one: UnitView| owner(groups, one) == groups.len());
            assert(rest[u - named.len()] == unit);
            assert(flat.contains(rest[u - named.len()]));
            lemma_flat_unit_is_dear_enough(models, unit, i);
        }
    } else {
        assert(flat[u] == unit);
        lemma_flat_unit_is_dear_enough(models, unit, i);
    }
}

proof fn lemma_dearest_is_one(models: Seq<FootprintView>)
    ensures
        largest_host(models) is Some ==> largest_host(models)->0 == 0 || exists|i: int|
            0 <= i < models.len() && (#[trigger] models[i]).host_gb == largest_host(models),
        (forall|i: int| 0 <= i < models.len() ==> (#[trigger] models[i]).host_gb is Some)
            ==> largest_host(models) is Some,
    decreases models.len(),
{
    if models.len() > 0 {
        let fewer = models.drop_last();
        lemma_dearest_is_one(fewer);
        if largest_host(models) is Some && largest_host(models)->0 != 0 {
            if models[models.len() - 1].host_gb == largest_host(models) {
            } else {
                let i = choose|i: int|
                    0 <= i < fewer.len() && (#[trigger] fewer[i]).host_gb == largest_host(fewer);
                assert(models[i].host_gb == largest_host(models));
            }
        }
        if forall|i: int| 0 <= i < models.len() ==> (#[trigger] models[i]).host_gb is Some {
            assert forall|i: int| 0 <= i < fewer.len() implies (
            #[trigger] fewer[i]).host_gb is Some by {
                assert(models[i].host_gb is Some);
            }
            assert(models[models.len() - 1].host_gb is Some);
        }
    }
}

/// Without grouping, a unit costs the host no more than its dearest variant: its cost is that of
/// one of them, or nothing, and is known where each of theirs is.
pub proof fn law_a_file_costs_the_host_no_more_than_a_variant(
    models: Seq<FootprintView>,
    policy: PolicyView,
    u: int,
)
    requires
        policy.strategy == Strategy::Flat,
        0 <= u < units_of(models, policy).len(),
    ensures
        ({
            let unit = units_of(models, policy)[u];
            &&& unit.host_size is Some ==> unit.host_size->0 == 0 || exists|i: int|
                0 <= i < models.len() && unit.ids.contains((#[trigger] models[i]).id)
                    && models[i].host_gb == unit.host_size
            &&& (forall|i: int| 0 <= i < models.len() ==> (#[trigger] models[i]).host_gb is Some)
                ==> unit.host_size is Some
        }),
{
    let key = file_keys(models)[u];
    let members = variants(models, key);
    let unit = units_of(models, policy)[u];
    lemma_filter(models, |m: FootprintView| file_key(m) == key);
    lemma_dearest_is_one(members);
    if unit.host_size is Some && unit.host_size->0 != 0 {
        let k = choose|k: int|
            0 <= k < members.len() && (#[trigger] members[k]).host_gb == largest_host(members);
        assert(models.contains(members[k]));
        let i = choose|i: int| 0 <= i < models.len() && models[i] == members[k];
        assert(unit.ids[k] == models[i].id);
        assert(unit.ids.contains(models[i].id));
    }
    if forall|i: int| 0 <= i < models.len() ==> (#[trigger] models[i]).host_gb is Some {
        assert forall|k: int| 0 <= k < members.len() implies (#[trigger] members[k]).host_gb is Some by {
            assert(models.contains(members[k]));
        }
    }
}

} // verus!
