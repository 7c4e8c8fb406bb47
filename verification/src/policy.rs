//! The operator's policy (`llama-matrix.toml`), separate from llama-swap's own config.
//! Every key is optional and has a default. Scalars are managed by the `configure`
//! command (see `settings`); the tables are edited by hand.

use indexmap::IndexMap;
use vstd::prelude::*;
use vstd::string::*;

use crate::model::{text_view, type_named, ModelType};
use crate::number::{count_text, digits};
use crate::tables::{
    cost_entry, cost_table, cost_under, group_table, lookup, new_cost_table, new_group_table,
    new_text_table, text_entry, text_table, text_under,
};
use crate::text::{starts, strip_prefix, views};

verus! {

/// The default image-probe resolution. What a diffusion model allocates scales with the
/// resolution it generates at, so probing tiny would under-measure every operator who
/// serves at a real one.
pub fn default_probe_image_size() -> (size: String)
    ensures
        size@ == "1024x1024"@,
{
    "1024x1024".to_owned()
}

/// The packing strategy: how models become knapsack units.
#[derive(Debug, Clone, Copy, PartialEq, Eq, Structural)]
pub enum Strategy {
    /// No grouping: every model is independent.
    Flat,
    /// The `[groups]` tables become single, mutually exclusive units.
    Family,
}

/// What to do when a generated set would exceed llama-swap's combination cap.
#[derive(Debug, Clone, Copy, PartialEq, Eq, Structural)]
pub enum OnOverflow {
    /// Omit any set over the cap (a safe under-declaration) and warn.
    Group,
    /// Refuse to emit; the operator groups by hand.
    Error,
}

/// What `build` does with a set whose host-memory cost exceeds the host ceiling.
#[derive(Debug, Clone, Copy, PartialEq, Eq, Structural)]
pub enum OnHostOverflow {
    /// Emit it, and name every set that is over. The default, because part of the host
    /// cost is a declared cap rather than a measurement.
    Warn,
    /// Leave the set out of the matrix (a safe under-declaration).
    Exclude,
    /// Refuse to emit until the roster or the budget changes.
    Error,
}

/// What `build` does with a footprint whose allocation was never confirmed.
#[derive(Debug, Clone, Copy, PartialEq, Eq, Structural)]
pub enum OnUnconfirmed {
    /// Use it, but name the models and the sets that depend on them.
    Warn,
    /// Leave the model out of the matrix (a safe under-declaration).
    Exclude,
    /// Refuse to build until the store has been measured again.
    Error,
}

/// Role overrides. A list that is not empty replaces the roles derived from model type.
#[derive(Debug)]
pub struct Roles {
    /// Ride-along models reserved in every set.
    pub aux: Vec<String>,
    /// The co-resident image pool.
    pub images: Vec<String>,
}

impl Default for Roles {
    fn default() -> (r: Self)
        ensures
            r.aux@.len() == 0,
            r.images@.len() == 0,
    {
        Roles { aux: Vec::new(), images: Vec::new() }
    }
}

/// Built-in eviction cost of an image model: the cheapest tier.
pub const IMAGE_EVICT_COST: u32 = 1;

/// Built-in eviction cost of an aux ride-along.
pub const AUX_EVICT_COST: u32 = 5;

/// Floor of the derived `llm` tier.
pub const MIN_LLM_EVICT_COST: u32 = 10;

/// Largest cost accepted: low enough that a whole roster of them sums without overflow.
pub const MAX_EVICT_COST: u32 = 1_000_000;

/// The tier a model's eviction cost is drawn from.
#[derive(Debug, Clone, Copy, PartialEq, Eq, Structural)]
pub enum CostRole {
    Llm,
    Image,
    Aux,
}

/// `[evict_costs]`: how much the solver must pay to evict each model. A cost is a keep
/// weight: the higher, the more the solver prefers to keep the model.
#[derive(Debug)]
pub struct EvictCosts {
    /// Conversational models. Unset, it is derived per roster so that keeping one always
    /// beats keeping the entire idle image pool.
    pub llm: Option<u32>,
    /// The image pool.
    pub image: Option<u32>,
    /// The aux ride-alongs.
    pub aux: Option<u32>,
    /// Per-model-id overrides, which win over the role tier.
    pub models: IndexMap<String, u32>,
}

/// What `[evict_costs]` says.
#[verifier::ext_equal]
pub struct CostsView {
    pub llm: Option<u32>,
    pub image: Option<u32>,
    pub aux: Option<u32>,
    pub models: Seq<(Seq<char>, u32)>,
}

impl View for EvictCosts {
    type V = CostsView;

    open spec fn view(&self) -> CostsView {
        CostsView {
            llm: self.llm,
            image: self.image,
            aux: self.aux,
            models: cost_table(self.models),
        }
    }
}

impl Default for EvictCosts {
    fn default() -> (r: Self)
        ensures
            r@ == (CostsView { llm: None, image: None, aux: None, models: Seq::empty() }),
    {
        EvictCosts { llm: None, image: None, aux: None, models: new_cost_table() }
    }
}

/// The built-in `llm` tier of a roster whose image pool costs `image_pool` in total: just
/// more than the pool, within the bounds of a cost.
pub open spec fn llm_tier(image_pool: int) -> int {
    if image_pool + 1 < MIN_LLM_EVICT_COST {
        MIN_LLM_EVICT_COST as int
    } else if image_pool + 1 > MAX_EVICT_COST {
        MAX_EVICT_COST as int
    } else {
        image_pool + 1
    }
}

/// A configured number, or another one where none is.
pub open spec fn configured_or(configured: Option<u32>, otherwise: int) -> int {
    match configured {
        Some(cost) => cost as int,
        None => otherwise,
    }
}

/// The cost of one model: its own override, else its role's, else the role's built-in.
pub open spec fn cost_of(costs: CostsView, id: Seq<char>, role: CostRole, image_pool: int) -> int {
    match lookup(costs.models, id) {
        Some(cost) => cost as int,
        None => match role {
            CostRole::Llm => configured_or(costs.llm, llm_tier(image_pool)),
            CostRole::Image => configured_or(costs.image, IMAGE_EVICT_COST as int),
            CostRole::Aux => configured_or(costs.aux, AUX_EVICT_COST as int),
        },
    }
}

impl EvictCosts {
    /// The built-in `llm` tier for a roster whose image pool costs `image_pool` in total.
    pub fn derived_llm(image_pool: u64) -> (cost: u32)
        ensures
            cost == llm_tier(image_pool as int),
    {
        if image_pool < 9 {
            MIN_LLM_EVICT_COST
        } else if image_pool >= 1_000_000 {
            MAX_EVICT_COST
        } else {
            image_pool as u32 + 1
        }
    }

    /// The cost of one model. `image_pool` is consulted only for [`CostRole::Llm`].
    pub fn of(&self, id: &str, role: CostRole, image_pool: u64) -> (cost: u32)
        ensures
            cost == cost_of(self@, id@, role, image_pool as int),
    {
        if let Some(cost) = cost_under(&self.models, id) {
            return cost;
        }
        match role {
            CostRole::Llm => match self.llm {
                Some(cost) => cost,
                None => EvictCosts::derived_llm(image_pool),
            },
            CostRole::Image => match self.image {
                Some(cost) => cost,
                None => IMAGE_EVICT_COST,
            },
            CostRole::Aux => match self.aux {
                Some(cost) => cost,
                None => AUX_EVICT_COST,
            },
        }
    }

    /// Every configured cost must be one llama-swap accepts: positive, and small enough
    /// that a whole roster of them sums without overflow. The first that is not is
    /// reported.
    pub fn validate(&self) -> (r: Result<(), PolicyError>)
        ensures
            match r {
                Ok(()) => bad_cost(configured_costs(self@)) is None,
                Err(error) => bad_cost(configured_costs(self@)) == Some(error@),
            },
    {
        let ghost llm = role_cost("[evict_costs] llm"@, self.llm);
        let ghost image = role_cost("[evict_costs] image"@, self.image);
        let ghost aux = role_cost("[evict_costs] aux"@, self.aux);
        let ghost models = model_costs(self@.models);
        proof {
            lemma_bad_cost_splits(llm + image + aux, models);
            lemma_bad_cost_splits(llm + image, aux);
            lemma_bad_cost_splits(llm, image);
        }
        if let Err(error) = check_role("[evict_costs] llm", self.llm) {
            return Err(error);
        }
        if let Err(error) = check_role("[evict_costs] image", self.image) {
            return Err(error);
        }
        if let Err(error) = check_role("[evict_costs] aux", self.aux) {
            return Err(error);
        }
        let mut index: usize = 0;
        proof {
            assert(models.take(0) =~= Seq::<(Seq<char>, u32)>::empty());
        }
        loop
            invariant
                index <= self@.models.len(),
                models == model_costs(self@.models),
                bad_cost(models.take(index as int)) is None,
                bad_cost(configured_costs(self@)) == bad_cost(models),
            decreases self@.models.len() - index,
        {
            match cost_entry(&self.models, index) {
                Some((id, cost)) => {
                    let place = "[evict_costs.models] \"".to_owned().concat(id.as_str()).concat(
                        "\"",
                    );
                    proof {
                        let here = seq![(place@, *cost)];
                        assert(models[index as int] == (place@, *cost));
                        assert(models.take(index + 1) =~= models.take(index as int) + here);
                        lemma_bad_cost_splits(models.take(index as int), here);
                        lemma_bad_cost_single(place@, *cost);
                        lemma_bad_cost_splits(models.take(index + 1), models.skip(index + 1));
                        assert(models.take(index + 1) + models.skip(index + 1) =~= models);
                    }
                    if let Err(error) = check_cost(place.as_str(), *cost) {
                        return Err(error);
                    }
                    index = index + 1;
                },
                None => {
                    proof {
                        assert(models.take(index as int) =~= models);
                    }
                    return Ok(());
                },
            }
        }
    }
}

/// Why a policy cannot be used.
#[derive(Debug)]
pub enum PolicyError {
    /// A cost of zero, at this key.
    ZeroCost { place: String },
    /// A cost above [`MAX_EVICT_COST`], at this key.
    CostAboveCeiling { place: String, cost: u32 },
    /// A `[types]` entry that names no model type.
    UnknownType { id: String, name: String },
}

/// What a policy error says.
#[verifier::ext_equal]
pub enum PolicyErrorView {
    ZeroCost { place: Seq<char> },
    CostAboveCeiling { place: Seq<char>, cost: u32 },
    UnknownType { id: Seq<char>, name: Seq<char> },
}

impl View for PolicyError {
    type V = PolicyErrorView;

    open spec fn view(&self) -> PolicyErrorView {
        match *self {
            PolicyError::ZeroCost { place } => PolicyErrorView::ZeroCost { place: place@ },
            PolicyError::CostAboveCeiling { place, cost } => PolicyErrorView::CostAboveCeiling {
                place: place@,
                cost,
            },
            PolicyError::UnknownType { id, name } => PolicyErrorView::UnknownType {
                id: id@,
                name: name@,
            },
        }
    }
}

/// The text of a policy error.
pub open spec fn policy_error_text(error: PolicyErrorView) -> Seq<char> {
    match error {
        PolicyErrorView::ZeroCost { place } => "`"@ + place
            + " = 0` is invalid: llama-swap eviction costs are positive integers (1 or more)"@,
        PolicyErrorView::CostAboveCeiling { place, cost } => "`"@ + place + " = "@ + digits(
            cost as nat,
        ) + "` is above the 1000000 ceiling llama-matrix emits"@,
        PolicyErrorView::UnknownType { id, name } => "`[types] \""@ + id + "\" = \""@ + name
            + "\"` is not a model type; expected one of [\"llm\", \"embed\", \"rerank\", \"stt\", \"image\", \"tts-proxy\"]"@,
    }
}

impl PolicyError {
    pub fn message(&self) -> (text: String)
        ensures
            text@ == policy_error_text(self@),
    {
        match self {
            PolicyError::ZeroCost { place } => "`".to_owned().concat(place.as_str()).concat(
                " = 0` is invalid: llama-swap eviction costs are positive integers (1 or more)",
            ),
            PolicyError::CostAboveCeiling { place, cost } => "`".to_owned().concat(
                place.as_str(),
            ).concat(" = ").concat(count_text(*cost as usize).as_str()).concat(
                "` is above the 1000000 ceiling llama-matrix emits",
            ),
            PolicyError::UnknownType { id, name } => "`[types] \"".to_owned().concat(
                id.as_str(),
            ).concat("\" = \"").concat(name.as_str()).concat(
                "\"` is not a model type; expected one of [\"llm\", \"embed\", \"rerank\", \"stt\", \"image\", \"tts-proxy\"]",
            ),
        }
    }
}

/// What is wrong with a cost at this key, if anything is.
pub open spec fn cost_error(place: Seq<char>, cost: u32) -> Option<PolicyErrorView> {
    if cost == 0 {
        Some(PolicyErrorView::ZeroCost { place })
    } else if cost > MAX_EVICT_COST {
        Some(PolicyErrorView::CostAboveCeiling { place, cost })
    } else {
        None
    }
}

/// The first thing wrong among costs and their keys.
pub open spec fn bad_cost(costs: Seq<(Seq<char>, u32)>) -> Option<PolicyErrorView>
    decreases costs.len(),
{
    if costs.len() == 0 {
        None
    } else if cost_error(costs[0].0, costs[0].1) is Some {
        cost_error(costs[0].0, costs[0].1)
    } else {
        bad_cost(costs.skip(1))
    }
}

/// A role's cost with its key, where one is configured.
pub open spec fn role_cost(place: Seq<char>, configured: Option<u32>) -> Seq<(Seq<char>, u32)> {
    match configured {
        Some(cost) => seq![(place, cost)],
        None => Seq::empty(),
    }
}

/// The per-model costs with their keys.
pub open spec fn model_costs(models: Seq<(Seq<char>, u32)>) -> Seq<(Seq<char>, u32)> {
    Seq::new(
        models.len(),
        |i: int| ("[evict_costs.models] \""@ + models[i].0 + "\""@, models[i].1),
    )
}

/// Every configured cost with its key: the roles', then the models'.
pub open spec fn configured_costs(costs: CostsView) -> Seq<(Seq<char>, u32)> {
    role_cost("[evict_costs] llm"@, costs.llm) + role_cost("[evict_costs] image"@, costs.image)
        + role_cost("[evict_costs] aux"@, costs.aux) + model_costs(costs.models)
}

proof fn lemma_bad_cost_splits(before: Seq<(Seq<char>, u32)>, after: Seq<(Seq<char>, u32)>)
    ensures
        bad_cost(before + after) == if bad_cost(before) is Some {
            bad_cost(before)
        } else {
            bad_cost(after)
        },
    decreases before.len(),
{
    if before.len() == 0 {
        assert(before + after =~= after);
    } else {
        assert((before + after).skip(1) =~= before.skip(1) + after);
        lemma_bad_cost_splits(before.skip(1), after);
    }
}

proof fn lemma_bad_cost_single(place: Seq<char>, cost: u32)
    ensures
        bad_cost(seq![(place, cost)]) == cost_error(place, cost),
{
    assert(bad_cost(seq![(place, cost)].skip(1)) is None);
}

fn check_cost(place: &str, cost: u32) -> (r: Result<(), PolicyError>)
    ensures
        match r {
            Ok(()) => cost_error(place@, cost) is None,
            Err(error) => cost_error(place@, cost) == Some(error@),
        },
{
    if cost == 0 {
        return Err(PolicyError::ZeroCost { place: place.to_owned() });
    }
    if cost > MAX_EVICT_COST {
        return Err(PolicyError::CostAboveCeiling { place: place.to_owned(), cost });
    }
    Ok(())
}

fn check_role(place: &str, configured: Option<u32>) -> (r: Result<(), PolicyError>)
    ensures
        match r {
            Ok(()) => bad_cost(role_cost(place@, configured)) is None,
            Err(error) => bad_cost(role_cost(place@, configured)) == Some(error@),
        },
{
    match configured {
        Some(cost) => {
            proof {
                lemma_bad_cost_single(place@, cost);
            }
            check_cost(place, cost)
        },
        None => Ok(()),
    }
}

// ---- the policy -----------------------------------------------------------------------

/// The operator's policy. Amounts are in units (see `number`).
#[derive(Debug)]
pub struct Policy {
    /// Path to the llama-swap `config.yaml` (default: beside this file).
    pub config: Option<String>,
    /// llama-swap base URL.
    pub endpoint: String,
    /// Memory to plan against; `None` means the detected physical total.
    pub budget: Option<i64>,
    /// Safety slack inside the budget.
    pub margin: i64,
    /// Host memory to plan against; `None` means the total the store recorded.
    pub host_budget: Option<i64>,
    /// Safety slack inside the host budget.
    pub host_margin: i64,
    /// Host memory a llama-server is taken to hold for its prompt cache when its command
    /// does not say: the one number of the host arithmetic that is assumed, not read.
    pub host_cache_gb: i64,
    pub on_host_overflow: OnHostOverflow,
    pub strategy: Strategy,
    pub on_overflow: OnOverflow,
    pub on_unconfirmed: OnUnconfirmed,
    /// The most models that a declared set may load at once; `None` means as many as fit.
    pub max_models_per_set: Option<u32>,
    /// The most of them that may hold a prompt cache.
    pub max_cache_holders_per_set: Option<u32>,
    /// `WxH` for the image load-trigger: measure at the size you serve.
    pub probe_image_size: String,
    /// Container to host weight-directory mapping (empty for native deployments).
    pub paths: IndexMap<String, String>,
    pub roles: Roles,
    /// Named groups of distinct model ids, consulted by [`Strategy::Family`].
    pub groups: IndexMap<String, Vec<String>>,
    /// Per-id model-type overrides, for a backend whose command does not show its type.
    pub types: IndexMap<String, String>,
    /// Per-role and per-id eviction costs.
    pub evict_costs: EvictCosts,
}

/// What a policy says.
#[verifier::ext_equal]
pub struct PolicyView {
    pub config: Option<Seq<char>>,
    pub endpoint: Seq<char>,
    pub budget: Option<i64>,
    pub margin: int,
    pub host_budget: Option<i64>,
    pub host_margin: int,
    pub host_cache_gb: int,
    pub on_host_overflow: OnHostOverflow,
    pub strategy: Strategy,
    pub on_overflow: OnOverflow,
    pub on_unconfirmed: OnUnconfirmed,
    pub max_models_per_set: Option<u32>,
    pub max_cache_holders_per_set: Option<u32>,
    pub probe_image_size: Seq<char>,
    pub paths: Seq<(Seq<char>, Seq<char>)>,
    pub aux: Seq<Seq<char>>,
    pub images: Seq<Seq<char>>,
    pub groups: Seq<(Seq<char>, Seq<Seq<char>>)>,
    pub types: Seq<(Seq<char>, Seq<char>)>,
    pub evict_costs: CostsView,
}

impl View for Policy {
    type V = PolicyView;

    open spec fn view(&self) -> PolicyView {
        PolicyView {
            config: text_view(self.config),
            endpoint: self.endpoint@,
            budget: self.budget,
            margin: self.margin as int,
            host_budget: self.host_budget,
            host_margin: self.host_margin as int,
            host_cache_gb: self.host_cache_gb as int,
            on_host_overflow: self.on_host_overflow,
            strategy: self.strategy,
            on_overflow: self.on_overflow,
            on_unconfirmed: self.on_unconfirmed,
            max_models_per_set: self.max_models_per_set,
            max_cache_holders_per_set: self.max_cache_holders_per_set,
            probe_image_size: self.probe_image_size@,
            paths: text_table(self.paths),
            aux: views(self.roles.aux@),
            images: views(self.roles.images@),
            groups: group_table(self.groups),
            types: text_table(self.types),
            evict_costs: self.evict_costs@,
        }
    }
}

impl Default for Policy {
    /// The defaults: nothing configured, four GB of slack on either side, eight GB for an
    /// unstated prompt cache, and the choice that warns wherever there is one.
    fn default() -> (r: Self)
        ensures
            r@ == (PolicyView {
                config: None,
                endpoint: "http://localhost:8080"@,
                budget: None,
                margin: 4_096_000_000,
                host_budget: None,
                host_margin: 4_096_000_000,
                host_cache_gb: 8_192_000_000,
                on_host_overflow: OnHostOverflow::Warn,
                strategy: Strategy::Flat,
                on_overflow: OnOverflow::Group,
                on_unconfirmed: OnUnconfirmed::Warn,
                max_models_per_set: None,
                max_cache_holders_per_set: None,
                probe_image_size: "1024x1024"@,
                paths: Seq::empty(),
                aux: Seq::empty(),
                images: Seq::empty(),
                groups: Seq::empty(),
                types: Seq::empty(),
                evict_costs: CostsView { llm: None, image: None, aux: None, models: Seq::empty() },
            }),
    {
        Policy {
            config: None,
            endpoint: "http://localhost:8080".to_owned(),
            budget: None,
            margin: 4_096_000_000,
            host_budget: None,
            host_margin: 4_096_000_000,
            host_cache_gb: 8_192_000_000,
            on_host_overflow: OnHostOverflow::Warn,
            strategy: Strategy::Flat,
            on_overflow: OnOverflow::Group,
            on_unconfirmed: OnUnconfirmed::Warn,
            max_models_per_set: None,
            max_cache_holders_per_set: None,
            probe_image_size: default_probe_image_size(),
            paths: new_text_table(),
            roles: Roles { aux: Vec::new(), images: Vec::new() },
            groups: new_group_table(),
            types: new_text_table(),
            evict_costs: EvictCosts { llm: None, image: None, aux: None, models: new_cost_table() },
        }
    }
}

/// The first `[types]` entry that names no model type.
pub open spec fn bad_type(types: Seq<(Seq<char>, Seq<char>)>) -> Option<PolicyErrorView>
    decreases types.len(),
{
    if types.len() == 0 {
        None
    } else if type_named(types[0].1) is None {
        Some(PolicyErrorView::UnknownType { id: types[0].0, name: types[0].1 })
    } else {
        bad_type(types.skip(1))
    }
}

/// Where a container path lies on the host: the first mapped prefix that it starts with is
/// replaced, and an unmapped path is its own.
pub open spec fn host_path(paths: Seq<(Seq<char>, Seq<char>)>, path: Seq<char>) -> Seq<char>
    decreases paths.len(),
{
    if paths.len() == 0 {
        path
    } else if starts(path, paths[0].0) {
        paths[0].1 + path.skip(paths[0].0.len() as int)
    } else {
        host_path(paths.skip(1), path)
    }
}

/// The type that a table declares for an id.
pub open spec fn type_declared(types: Seq<(Seq<char>, Seq<char>)>, id: Seq<char>) -> Option<
    ModelType,
> {
    match lookup(types, id) {
        Some(name) => type_named(name),
        None => None,
    }
}

impl Policy {
    /// Every `[types]` value has to be a known type, or the override would silently do
    /// nothing. The first that is not is reported.
    pub fn validate_types(&self) -> (r: Result<(), PolicyError>)
        ensures
            match r {
                Ok(()) => bad_type(self@.types) is None,
                Err(error) => bad_type(self@.types) == Some(error@),
            },
    {
        let ghost types = self@.types;
        let mut index: usize = 0;
        proof {
            assert(types.skip(0) =~= types);
        }
        loop
            invariant
                types == self@.types,
                index <= types.len(),
                bad_type(types.skip(index as int)) == bad_type(types),
            decreases types.len() - index,
        {
            match text_entry(&self.types, index) {
                Some((id, name)) => {
                    proof {
                        assert(types.skip(index as int).skip(1) =~= types.skip(index + 1));
                    }
                    if ModelType::from_name(name.as_str()).is_none() {
                        return Err(PolicyError::UnknownType { id: id.clone(), name: name.clone() });
                    }
                    index = index + 1;
                },
                None => {
                    return Ok(());
                },
            }
        }
    }

    /// A policy can be used if its costs and its types can. Costs are looked at first.
    pub fn validate(&self) -> (r: Result<(), PolicyError>)
        ensures
            match r {
                Ok(()) => bad_cost(configured_costs(self@.evict_costs)) is None && bad_type(
                    self@.types,
                ) is None,
                Err(error) => Some(error@) == (if bad_cost(
                    configured_costs(self@.evict_costs),
                ) is Some {
                    bad_cost(configured_costs(self@.evict_costs))
                } else {
                    bad_type(self@.types)
                }),
            },
    {
        if let Err(error) = self.evict_costs.validate() {
            return Err(error);
        }
        self.validate_types()
    }

    /// The type an operator declared for `id`, if any.
    pub fn declared_type(&self, id: &str) -> (r: Option<ModelType>)
        ensures
            r == type_declared(self@.types, id@),
    {
        match text_under(&self.types, id) {
            Some(name) => ModelType::from_name(name.as_str()),
            None => None,
        }
    }

    /// Map a container path to a host path; unmapped paths pass through unchanged.
    pub fn to_host(&self, container_path: &str) -> (path: String)
        ensures
            path@ == host_path(self@.paths, container_path@),
    {
        let ghost paths = self@.paths;
        let mut index: usize = 0;
        proof {
            assert(paths.skip(0) =~= paths);
        }
        loop
            invariant
                paths == self@.paths,
                index <= paths.len(),
                host_path(paths.skip(index as int), container_path@) == host_path(
                    paths,
                    container_path@,
                ),
            decreases paths.len() - index,
        {
            match text_entry(&self.paths, index) {
                Some((prefix, host)) => {
                    proof {
                        assert(paths.skip(index as int).skip(1) =~= paths.skip(index + 1));
                    }
                    if let Some(rest) = strip_prefix(container_path, prefix.as_str()) {
                        return host.clone().concat(rest.as_str());
                    }
                    index = index + 1;
                },
                None => {
                    return container_path.to_owned();
                },
            }
        }
    }
}

// ---- what costs promise ---------------------------------------------------------------

proof fn lemma_lookup_is_entry<V>(table: Seq<(Seq<char>, V)>, key: Seq<char>) -> (i: int)
    requires
        lookup(table, key) is Some,
    ensures
        0 <= i < table.len(),
        table[i] == (key, lookup(table, key)->0),
    decreases table.len(),
{
    if table[0].0 == key {
        0
    } else {
        let i = lemma_lookup_is_entry(table.skip(1), key);
        i + 1
    }
}

proof fn lemma_no_bad_cost(costs: Seq<(Seq<char>, u32)>, i: int)
    requires
        bad_cost(costs) is None,
        0 <= i < costs.len(),
    ensures
        1 <= costs[i].1 <= MAX_EVICT_COST,
    decreases costs.len(),
{
    if i > 0 {
        lemma_no_bad_cost(costs.skip(1), i - 1);
    }
}

/// Under a policy whose costs are valid, every model's cost is a positive integer that
/// llama-swap accepts, whatever its id, role and pool.
pub proof fn law_every_cost_is_acceptable(
    costs: CostsView,
    id: Seq<char>,
    role: CostRole,
    image_pool: int,
)
    requires
        bad_cost(configured_costs(costs)) is None,
        image_pool >= 0,
    ensures
        1 <= cost_of(costs, id, role, image_pool) <= MAX_EVICT_COST,
{
    let llm = role_cost("[evict_costs] llm"@, costs.llm);
    let image = role_cost("[evict_costs] image"@, costs.image);
    let aux = role_cost("[evict_costs] aux"@, costs.aux);
    let models = model_costs(costs.models);
    lemma_bad_cost_splits(llm + image + aux, models);
    lemma_bad_cost_splits(llm + image, aux);
    lemma_bad_cost_splits(llm, image);
    if lookup(costs.models, id) is Some {
        let i = lemma_lookup_is_entry(costs.models, id);
        lemma_no_bad_cost(models, i);
        assert(models[i].1 == costs.models[i].1);
    }
    if costs.llm is Some {
        lemma_no_bad_cost(llm, 0);
    }
    if costs.image is Some {
        lemma_no_bad_cost(image, 0);
    }
    if costs.aux is Some {
        lemma_no_bad_cost(aux, 0);
    }
}

/// Unless it is configured, keeping one conversational model beats keeping the entire idle
/// image pool, and any aux ride-along at its built-in cost, as long as the pool's cost
/// stays below the ceiling on costs.
pub proof fn law_a_conversation_outweighs_the_image_pool(
    costs: CostsView,
    id: Seq<char>,
    image_pool: int,
)
    requires
        costs.llm is None,
        lookup(costs.models, id) is None,
        0 <= image_pool < MAX_EVICT_COST,
    ensures
        cost_of(costs, id, CostRole::Llm, image_pool) > image_pool,
        cost_of(costs, id, CostRole::Llm, image_pool) > AUX_EVICT_COST,
        cost_of(costs, id, CostRole::Llm, image_pool) > IMAGE_EVICT_COST,
{
}

/// A path that no mapped prefix starts is left alone.
pub proof fn law_unmapped_paths_pass_through(
    paths: Seq<(Seq<char>, Seq<char>)>,
    path: Seq<char>,
)
    requires
        forall|i: int| 0 <= i < paths.len() ==> !starts(path, #[trigger] paths[i].0),
    ensures
        host_path(paths, path) == path,
    decreases paths.len(),
{
    if paths.len() > 0 {
        assert(!starts(path, paths[0].0));
        assert forall|i: int| 0 <= i < paths.skip(1).len() implies !starts(
            path,
            #[trigger] paths.skip(1)[i].0,
        ) by {
            assert(paths.skip(1)[i] == paths[i + 1]);
        }
        law_unmapped_paths_pass_through(paths.skip(1), path);
    }
}

// ---- what a policy's entries come to ------------------------------------------------------

/// The first entry with a key is what a table holds under it, and without one it holds nothing.
pub proof fn law_the_first_entry_is_found<V>(table: Seq<(Seq<char>, V)>, key: Seq<char>)
    ensures
        forall|i: int|
            0 <= i < table.len() && (#[trigger] table[i]).0 == key && (forall|j: int|
                0 <= j < i ==> (#[trigger] table[j]).0 != key) ==> lookup(table, key) == Some(
                table[i].1,
            ),
        (forall|i: int| 0 <= i < table.len() ==> (#[trigger] table[i]).0 != key) ==> lookup(
            table,
            key,
        ) is None,
    decreases table.len(),
{
    if table.len() > 0 {
        let rest = table.skip(1);
        law_the_first_entry_is_found(rest, key);
        assert forall|i: int|
            0 <= i < table.len() && (#[trigger] table[i]).0 == key && (forall|j: int|
                0 <= j < i ==> (#[trigger] table[j]).0 != key) implies lookup(table, key) == Some(
            table[i].1,
        ) by {
            if i > 0 {
                assert(table[0].0 != key);
                assert(rest[i - 1] == table[i]);
                assert forall|j: int| 0 <= j < i - 1 implies (#[trigger] rest[j]).0 != key by {
                    assert(table[j + 1].0 != key);
                }
            }
        }
        if forall|i: int| 0 <= i < table.len() ==> (#[trigger] table[i]).0 != key {
            assert(table[0].0 != key);
            assert forall|j: int| 0 <= j < rest.len() implies (#[trigger] rest[j]).0 != key by {
                assert(table[j + 1].0 != key);
            }
        }
    }
}

/// A model's own entry in `[evict_costs.models]` is its cost, whatever its role, the tiers and
/// the image pool.
pub proof fn law_a_model_entry_wins(
    costs: CostsView,
    id: Seq<char>,
    role: CostRole,
    image_pool: int,
    i: int,
)
    requires
        0 <= i < costs.models.len(),
        costs.models[i].0 == id,
        forall|j: int| 0 <= j < i ==> (#[trigger] costs.models[j]).0 != id,
    ensures
        cost_of(costs, id, role, image_pool) == costs.models[i].1,
{
    law_the_first_entry_is_found(costs.models, id);
}

/// Without an entry of its own a model costs what the policy sets for its role; where it sets
/// nothing, an image costs 1, a ride-along 5, and a conversational model one more than the
/// whole image pool, but no less than 10 and no more than a million.
pub proof fn law_a_role_costs_what_is_set_for_it(
    costs: CostsView,
    id: Seq<char>,
    image_pool: int,
)
    requires
        forall|j: int| 0 <= j < costs.models.len() ==> (#[trigger] costs.models[j]).0 != id,
        image_pool >= 0,
    ensures
        costs.llm is Some ==> cost_of(costs, id, CostRole::Llm, image_pool) == costs.llm->0,
        costs.image is Some ==> cost_of(costs, id, CostRole::Image, image_pool) == costs.image->0,
        costs.aux is Some ==> cost_of(costs, id, CostRole::Aux, image_pool) == costs.aux->0,
        costs.image is None ==> cost_of(costs, id, CostRole::Image, image_pool) == 1,
        costs.aux is None ==> cost_of(costs, id, CostRole::Aux, image_pool) == 5,
        costs.llm is None && image_pool <= 9 ==> cost_of(costs, id, CostRole::Llm, image_pool)
            == 10,
        costs.llm is None && 9 <= image_pool <= 999_999 ==> cost_of(
            costs,
            id,
            CostRole::Llm,
            image_pool,
        ) == image_pool + 1,
        costs.llm is None && image_pool >= 999_999 ==> cost_of(
            costs,
            id,
            CostRole::Llm,
            image_pool,
        ) == 1_000_000,
{
    law_the_first_entry_is_found(costs.models, id);
}

/// The cost of one model depends on nothing that is set for another role or another model.
pub proof fn law_a_cost_depends_on_its_own_settings(
    a: CostsView,
    b: CostsView,
    id: Seq<char>,
    role: CostRole,
    image_pool: int,
)
    requires
        lookup(a.models, id) == lookup(b.models, id),
        role == CostRole::Llm ==> a.llm == b.llm,
        role == CostRole::Image ==> a.image == b.image,
        role == CostRole::Aux ==> a.aux == b.aux,
    ensures
        cost_of(a, id, role, image_pool) == cost_of(b, id, role, image_pool),
{
}

/// Costs are accepted exactly if every one that is configured is at least 1 and at most a
/// million.
pub proof fn law_costs_from_one_to_a_million_are_accepted(costs: CostsView)
    ensures
        bad_cost(configured_costs(costs)) is None <==> {
            &&& costs.llm is Some ==> 1 <= costs.llm->0 <= 1_000_000
            &&& costs.image is Some ==> 1 <= costs.image->0 <= 1_000_000
            &&& costs.aux is Some ==> 1 <= costs.aux->0 <= 1_000_000
            &&& forall|i: int|
                0 <= i < costs.models.len() ==> 1 <= (#[trigger] costs.models[i]).1 <= 1_000_000
        },
{
    let llm = role_cost("[evict_costs] llm"@, costs.llm);
    let image = role_cost("[evict_costs] image"@, costs.image);
    let aux = role_cost("[evict_costs] aux"@, costs.aux);
    let models = model_costs(costs.models);
    lemma_bad_cost_splits(llm + image + aux, models);
    lemma_bad_cost_splits(llm + image, aux);
    lemma_bad_cost_splits(llm, image);
    if costs.llm is Some {
        lemma_bad_cost_single("[evict_costs] llm"@, costs.llm->0);
    }
    if costs.image is Some {
        lemma_bad_cost_single("[evict_costs] image"@, costs.image->0);
    }
    if costs.aux is Some {
        lemma_bad_cost_single("[evict_costs] aux"@, costs.aux->0);
    }
    lemma_accepted(models);
    if bad_cost(models) is None {
        assert forall|i: int| 0 <= i < costs.models.len() implies 1 <= (
        #[trigger] costs.models[i]).1 <= 1_000_000 by {
            assert(models[i].1 == costs.models[i].1);
        }
    } else if forall|i: int|
        0 <= i < costs.models.len() ==> 1 <= (#[trigger] costs.models[i]).1 <= 1_000_000 {
        assert forall|i: int| 0 <= i < models.len() implies 1 <= (#[trigger] models[i]).1
            <= 1_000_000 by {
            assert(models[i].1 == costs.models[i].1);
        }
    }
}

proof fn lemma_accepted(costs: Seq<(Seq<char>, u32)>)
    ensures
        bad_cost(costs) is None <==> forall|i: int|
            0 <= i < costs.len() ==> 1 <= (#[trigger] costs[i]).1 <= 1_000_000,
    decreases costs.len(),
{
    if costs.len() > 0 {
        let rest = costs.skip(1);
        lemma_accepted(rest);
        if bad_cost(costs) is None {
            assert forall|i: int| 0 <= i < costs.len() implies 1 <= (#[trigger] costs[i]).1
                <= 1_000_000 by {
                if i > 0 {
                    assert(rest[i - 1] == costs[i]);
                }
            }
        } else if forall|i: int|
            0 <= i < costs.len() ==> 1 <= (#[trigger] costs[i]).1 <= 1_000_000 {
            assert(1 <= costs[0].1 <= 1_000_000);
            assert forall|i: int| 0 <= i < rest.len() implies 1 <= (#[trigger] rest[i]).1
                <= 1_000_000 by {
                assert(rest[i] == costs[i + 1]);
            }
        }
    }
}

/// A container path lies where the first mapping whose prefix it starts with says: the prefix
/// is replaced, and the rest of the path stays.
pub proof fn law_the_first_mapping_applies(
    paths: Seq<(Seq<char>, Seq<char>)>,
    rest: Seq<char>,
    i: int,
)
    requires
        0 <= i < paths.len(),
        forall|j: int| 0 <= j < i ==> !starts(paths[i].0 + rest, (#[trigger] paths[j]).0),
    ensures
        host_path(paths, paths[i].0 + rest) == paths[i].1 + rest,
    decreases paths.len(),
{
    let path = paths[i].0 + rest;
    if i == 0 {
        assert(path.subrange(0, paths[0].0.len() as int) =~= paths[0].0);
        assert(path.skip(paths[0].0.len() as int) =~= rest);
    } else {
        let fewer = paths.skip(1);
        assert(!starts(path, paths[0].0));
        assert forall|j: int| 0 <= j < i - 1 implies !starts(fewer[i - 1].0 + rest, (
        #[trigger] fewer[j]).0) by {
            assert(!starts(path, paths[j + 1].0));
        }
        law_the_first_mapping_applies(fewer, rest, i - 1);
    }
}

/// The types that `[types]` may declare, by their names, and nothing else.
pub proof fn law_declared_types_go_by_name(types: Seq<(Seq<char>, Seq<char>)>, id: Seq<char>, i: int)
    requires
        0 <= i < types.len(),
        types[i].0 == id,
        forall|j: int| 0 <= j < i ==> (#[trigger] types[j]).0 != id,
    ensures
        types[i].1 == "llm"@ ==> type_declared(types, id) == Some(ModelType::Llm),
        types[i].1 == "embed"@ ==> type_declared(types, id) == Some(ModelType::Embed),
        types[i].1 == "rerank"@ ==> type_declared(types, id) == Some(ModelType::Rerank),
        types[i].1 == "stt"@ ==> type_declared(types, id) == Some(ModelType::Stt),
        types[i].1 == "image"@ ==> type_declared(types, id) == Some(ModelType::Image),
        types[i].1 == "tts-proxy"@ ==> type_declared(types, id) == Some(ModelType::TtsProxy),
{
    law_the_first_entry_is_found(types, id);
    crate::model::law_type_names_round_trip(ModelType::Llm, types[i].1);
    crate::model::law_type_names_round_trip(ModelType::Embed, types[i].1);
    crate::model::law_type_names_round_trip(ModelType::Rerank, types[i].1);
    crate::model::law_type_names_round_trip(ModelType::Stt, types[i].1);
    crate::model::law_type_names_round_trip(ModelType::Image, types[i].1);
    crate::model::law_type_names_round_trip(ModelType::TtsProxy, types[i].1);
}

/// A policy's types are accepted exactly if every one is a type's name.
pub proof fn law_types_with_names_are_accepted(types: Seq<(Seq<char>, Seq<char>)>)
    ensures
        bad_type(types) is None <==> forall|i: int|
            0 <= i < types.len() ==> ((#[trigger] types[i]).1 == "llm"@ || types[i].1 == "embed"@
                || types[i].1 == "rerank"@ || types[i].1 == "stt"@ || types[i].1 == "image"@
                || types[i].1 == "tts-proxy"@),
    decreases types.len(),
{
    if types.len() > 0 {
        let rest = types.skip(1);
        law_types_with_names_are_accepted(rest);
        if bad_type(types) is None {
            assert forall|i: int| 0 <= i < types.len() implies ((#[trigger] types[i]).1 == "llm"@
                || types[i].1 == "embed"@ || types[i].1 == "rerank"@ || types[i].1 == "stt"@
                || types[i].1 == "image"@ || types[i].1 == "tts-proxy"@) by {
                if i > 0 {
                    assert(rest[i - 1] == types[i]);
                }
            }
        } else if forall|i: int|
            0 <= i < types.len() ==> ((#[trigger] types[i]).1 == "llm"@ || types[i].1 == "embed"@
                || types[i].1 == "rerank"@ || types[i].1 == "stt"@ || types[i].1 == "image"@
                || types[i].1 == "tts-proxy"@) {
            let first = types[0];
            assert forall|i: int| 0 <= i < rest.len() implies ((#[trigger] rest[i]).1 == "llm"@
                || rest[i].1 == "embed"@ || rest[i].1 == "rerank"@ || rest[i].1 == "stt"@
                || rest[i].1 == "image"@ || rest[i].1 == "tts-proxy"@) by {
                assert(rest[i] == types[i + 1]);
            }
        }
    }
}

/// A cost that is refused is named: the first that is nothing, or above a million.
pub proof fn law_the_first_bad_cost_is_named(costs: Seq<(Seq<char>, u32)>, i: int)
    requires
        0 <= i < costs.len(),
        forall|j: int| 0 <= j < i ==> 1 <= (#[trigger] costs[j]).1 <= 1_000_000,
    ensures
        costs[i].1 == 0 ==> bad_cost(costs) == Some(PolicyErrorView::ZeroCost { place: costs[i].0 }),
        costs[i].1 > 1_000_000 ==> bad_cost(costs) == Some(
            PolicyErrorView::CostAboveCeiling { place: costs[i].0, cost: costs[i].1 },
        ),
    decreases costs.len(),
{
    if i > 0 {
        let rest = costs.skip(1);
        assert(1 <= costs[0].1 <= 1_000_000);
        assert forall|j: int| 0 <= j < i - 1 implies 1 <= (#[trigger] rest[j]).1 <= 1_000_000 by {
            assert(1 <= costs[j + 1].1 <= 1_000_000);
        }
        law_the_first_bad_cost_is_named(rest, i - 1);
    }
}

/// A type that is refused is named, with its model.
pub proof fn law_the_first_bad_type_is_named(types: Seq<(Seq<char>, Seq<char>)>, i: int)
    requires
        0 <= i < types.len(),
        type_named(types[i].1) is None,
        forall|j: int| 0 <= j < i ==> type_named((#[trigger] types[j]).1) is Some,
    ensures
        bad_type(types) == Some(
            PolicyErrorView::UnknownType { id: types[i].0, name: types[i].1 },
        ),
    decreases types.len(),
{
    if i > 0 {
        let rest = types.skip(1);
        assert(type_named(types[0].1) is Some);
        assert forall|j: int| 0 <= j < i - 1 implies type_named((#[trigger] rest[j]).1) is Some by {
            assert(type_named(types[j + 1].1) is Some);
        }
        law_the_first_bad_type_is_named(rest, i - 1);
    }
}

} // verus!
