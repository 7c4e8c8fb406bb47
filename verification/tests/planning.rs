//! Plans: which combinations a roster is declared with.

use indexmap::IndexMap;
use llama_matrix::build::{build, name_list};
use llama_matrix::cache::{BoxMeta, Measurement, ModelStore};
use llama_matrix::matrix::render;
use llama_matrix::model::{ModelRecord, ModelType};
use llama_matrix::packing::{enumerate_maximal_packs, MAX_PACKS};
use llama_matrix::param_hash::param_hash;
use llama_matrix::plan::{BuildError, BuildInput, HostBudget, MatrixPlan};
use llama_matrix::policy::{
    EvictCosts, OnHostOverflow, OnOverflow, OnUnconfirmed, Policy, Strategy,
};
use llama_matrix::resolve::{expr_tokens, resolve_plan, set_member_ids, sets_naming};
use llama_matrix::units::{collapse_units, safe_key, ModelFootprint};

const EMBED_CMD: &str = "/app/llama-server -m /models/e.gguf --embedding -c 8192";
const CHAT_CMD: &str = "/app/llama-server -m /models/chat.gguf -ngl 99 -c 4096";
const IMG_CMD: &str = "/opt/sdcpp/bin/sd-server --diffusion-model /sd/u.gguf";

/// GB as the amount that stands for it.
fn gb(amount: f64) -> i64 {
    (amount * 1_024_000_000.0).round() as i64
}

fn entry(d_total: f64, confirmed: Option<bool>) -> Measurement {
    Measurement {
        status: "ok".to_string(),
        d_total: gb(d_total),
        load_tenths: 100,
        allocation_confirmed: confirmed,
        ..Measurement::default()
    }
}

fn file_of(model_type: &str, key: &str, entry: Measurement) -> ModelStore {
    let mut measurements = IndexMap::new();
    measurements.insert(key.to_string(), entry);
    ModelStore { model_type: model_type.to_string(), file: None, measurements }
}

/// A roster of three models and the files of its measurements, where `unconfirmed` names the
/// ids whose entries carry no allocation confirmation.
fn store_and_config(unconfirmed: &[&str]) -> (Vec<ModelRecord>, Vec<Option<ModelStore>>, BoxMeta) {
    let mut records = Vec::new();
    let mut files = Vec::new();
    for (id, cmd, model_type, d_total) in [
        ("embed", EMBED_CMD, "embed", 7.0),
        ("chat", CHAT_CMD, "llm", 30.0),
        ("img", IMG_CMD, "image", 8.87),
    ] {
        records.push(ModelRecord::from_expanded(id, cmd));
        files.push(Some(file_of(
            model_type,
            &param_hash(cmd),
            entry(d_total, Some(!unconfirmed.contains(&id))),
        )));
    }
    let meta = BoxMeta {
        baseline: gb(0.16),
        detected_total: Some(gb(100.0)),
        ..BoxMeta::default()
    };
    (records, files, meta)
}

fn budgeted(on_unconfirmed: OnUnconfirmed) -> Policy {
    Policy { budget: Some(gb(100.0)), on_unconfirmed, ..Policy::default() }
}

#[test]
fn a_non_empty_roles_aux_list_can_remove_a_type_derived_model() {
    let (records, files, meta) = store_and_config(&[]);
    let mut policy = budgeted(OnUnconfirmed::Warn);
    policy.roles.aux = vec!["chat".to_string()];

    let plan = resolve_plan(&records, &files, &meta, &policy, None).unwrap();
    let aux = plan.sets.iter().find(|set| set.name == "aux").expect("an aux set is still emitted");
    assert!(aux.expr.contains("chat"), "the list promotes `chat` into aux: {}", aux.expr);
    assert!(!aux.expr.contains("embed"), "and demotes the type-derived `embed`: {}", aux.expr);
}

#[test]
fn an_empty_roles_table_still_derives_aux_from_model_type() {
    let (records, files, meta) = store_and_config(&[]);
    let plan =
        resolve_plan(&records, &files, &meta, &budgeted(OnUnconfirmed::Warn), None).unwrap();
    let aux = plan.sets.iter().find(|set| set.name == "aux").expect("aux is derived");
    assert!(aux.expr.contains("embed"), "derived from type: {}", aux.expr);
    assert!(!aux.expr.contains("chat"), "an llm is not aux: {}", aux.expr);
}

#[test]
fn an_unconfirmed_footprint_is_named_along_with_the_sets_it_taints() {
    let (records, files, meta) = store_and_config(&["img"]);
    let plan =
        resolve_plan(&records, &files, &meta, &budgeted(OnUnconfirmed::Warn), None).unwrap();

    assert_eq!(plan.unconfirmed, vec!["img".to_string()]);
    assert!(plan.sets.iter().any(|set| set.expr.contains("img")), "`warn` keeps packing it");
    let warning = plan
        .warnings
        .iter()
        .find(|warning| warning.contains("without confirming"))
        .expect("an unconfirmed footprint must warn");
    assert!(warning.contains("img"), "{warning}");
    let dependents = sets_naming(&plan.sets, &plan.unconfirmed);
    assert!(!dependents.is_empty(), "the image sets depend on it");
    for set in dependents {
        assert!(warning.contains(&set), "set {set} missing from: {warning}");
    }
}

#[test]
fn an_unconfirmed_aux_footprint_taints_every_set() {
    let (records, files, meta) = store_and_config(&["embed"]);
    let plan =
        resolve_plan(&records, &files, &meta, &budgeted(OnUnconfirmed::Warn), None).unwrap();
    let warning = plan
        .warnings
        .iter()
        .find(|warning| warning.contains("without confirming"))
        .expect("an unconfirmed footprint must warn");
    for set in &plan.sets {
        assert!(warning.contains(&set.name), "set {} missing from: {warning}", set.name);
    }
}

#[test]
fn a_warning_names_a_few_and_counts_the_rest() {
    let names: Vec<String> = (1..=20).map(|index| format!("m{index}")).collect();
    let rendered = name_list(&names);
    assert!(rendered.starts_with("m1, m2, m3, m4, m5, m6, m7, m8, and 12 more"), "{rendered}");
    assert!(!rendered.contains("m9"), "{rendered}");
    assert_eq!(name_list(&names[..3].to_vec()), "m1, m2, m3");
    assert_eq!(name_list(&Vec::new()), "none");
}

#[test]
fn on_unconfirmed_exclude_drops_it_and_error_refuses() {
    let (records, files, meta) = store_and_config(&["img"]);
    let plan =
        resolve_plan(&records, &files, &meta, &budgeted(OnUnconfirmed::Exclude), None).unwrap();
    assert!(plan.excluded.contains(&"img".to_string()));
    for set in &plan.sets {
        assert!(!set.expr.contains("img"), "excluded model appears in {}", set.name);
    }
    assert!(plan.sets.iter().any(|set| set.expr.contains("chat")));

    let refused = resolve_plan(&records, &files, &meta, &budgeted(OnUnconfirmed::Error), None);
    assert!(refused.is_err(), "`error` must refuse rather than emit");
    assert!(matches!(refused, Err(BuildError::Unconfirmed { id }) if id == "img"));
}

#[test]
fn a_footprint_below_its_weights_on_disk_is_flagged() {
    let (records, mut files, meta) = store_and_config(&[]);
    let mut half = entry(8.87, Some(true));
    half.load_tenths = 120;
    half.weights_gb = Some(gb(16.55));
    files[2] = Some(file_of("image", &param_hash(IMG_CMD), half));

    let plan =
        resolve_plan(&records, &files, &meta, &budgeted(OnUnconfirmed::Warn), None).unwrap();
    assert!(plan.unconfirmed.is_empty(), "this entry is confirmed");
    assert!(
        plan.warnings.iter().any(|warning| warning.contains("`img` measured 8.87 GB, only 54%")),
        "expected a weights-floor warning, got {:?}",
        plan.warnings
    );
}

fn footprint(
    id: &str,
    model_type: ModelType,
    file: Option<&str>,
    d_total: f64,
) -> ModelFootprint {
    ModelFootprint {
        host_gb: None,
        cache_gb: 0,
        holds_cache: false,
        id: id.to_string(),
        model_type,
        primary_file: file.map(String::from),
        d_total: gb(d_total),
    }
}

/// A roster with heavy and light models, images, aux, and a same-file twin.
fn scenario() -> Vec<ModelFootprint> {
    vec![
        footprint("embed", ModelType::Embed, Some("/e.gguf"), 7.0),
        footprint("rerank", ModelType::Rerank, Some("/r.gguf"), 7.0),
        footprint("img-a", ModelType::Image, Some("/ia.gguf"), 4.0),
        footprint("img-b", ModelType::Image, Some("/ib.gguf"), 9.0),
        footprint("small-a", ModelType::Llm, Some("/sa.gguf"), 20.0),
        footprint("small-b", ModelType::Llm, Some("/sb.gguf"), 25.0),
        footprint("mid", ModelType::Llm, Some("/mid.gguf"), 40.0),
        footprint("twin", ModelType::Llm, Some("/twin.gguf"), 20.0),
        footprint("twin-nothink", ModelType::Llm, Some("/twin.gguf"), 20.0),
        footprint("huge", ModelType::Llm, Some("/huge.gguf"), 85.0),
    ]
}

fn plan_of(
    models: &Vec<ModelFootprint>,
    policy: &Policy,
    budget: f64,
    host: Option<HostBudget>,
) -> Result<MatrixPlan, BuildError> {
    build(&BuildInput { models, policy, baseline: gb(0.16), budget: gb(budget), host })
}

#[test]
fn a_pack_over_the_host_ceiling_is_named_and_can_be_excluded() {
    let with_host = |id: &str, file: &str, gpu: f64, host: f64| ModelFootprint {
        host_gb: Some(gb(host)),
        cache_gb: 0,
        holds_cache: false,
        id: id.to_string(),
        model_type: ModelType::Llm,
        primary_file: Some(file.to_string()),
        d_total: gb(gpu),
    };
    let models = vec![
        with_host("a", "/a.gguf", 20.0, 10.0),
        with_host("b", "/b.gguf", 20.0, 10.0),
        with_host("c", "/c.gguf", 20.0, 10.0),
    ];
    let host = Some(HostBudget { baseline: gb(4.0), total: gb(31.7) });
    let mut policy = budgeted(OnUnconfirmed::Warn);
    policy.budget = Some(gb(111.5));

    let plan = plan_of(&models, &policy, 111.5, host).unwrap();
    assert_eq!(plan.host_ceiling, Some(gb(27.7) as i128));
    assert_eq!(plan.n_packs, 1);
    let (over, needed) = plan.host_over.first().expect("the pack is over the host ceiling");
    assert_eq!(over, "pack1");
    assert!((*needed - gb(34.0) as i128).abs() < gb(0.01) as i128, "{needed}");
    assert!(plan.sets.iter().any(|set| set.name == "pack1"), "warn still emits it");
    assert!(plan.warnings.iter().any(|warning| warning.contains("HOST RAM")));

    policy.on_host_overflow = OnHostOverflow::Exclude;
    let excluded = plan_of(&models, &policy, 111.5, host).unwrap();
    assert!(!excluded.sets.iter().any(|set| set.name == "pack1"));

    policy.on_host_overflow = OnHostOverflow::Error;
    assert!(plan_of(&models, &policy, 111.5, host).is_err());
}

#[test]
fn without_a_host_budget_nothing_is_host_checked() {
    let plan = plan_of(&scenario(), &budgeted(OnUnconfirmed::Warn), 111.5, None).unwrap();
    assert_eq!(plan.host_ceiling, None);
    assert!(plan.host_over.is_empty());
    assert!(plan.sets.iter().all(|set| set.host_footprint.is_none()));
}

#[test]
fn fit_invariant_holds_for_every_set() {
    let plan = plan_of(&scenario(), &Policy::default(), 100.0, None).unwrap();
    for set in &plan.sets {
        assert!(set.footprint <= plan.ceiling, "set {} is over the ceiling", set.name);
        assert!(set.fanout <= 1000);
    }
    assert_eq!(plan.ceiling, gb(96.0) as i128);
}

#[test]
fn twins_collapse_and_huge_is_heavy() {
    let plan = plan_of(&scenario(), &Policy::default(), 100.0, None).unwrap();

    assert_eq!(plan.n_heavies, 1);
    let heavy = plan.sets.iter().find(|set| set.name.starts_with("heavy_")).unwrap();
    assert!(heavy.expr.contains("huge"));
    for set in plan.sets.iter().filter(|set| set.name.starts_with("pack")) {
        assert!(!set.expr.contains("huge"), "pack must not contain a heavy");
    }

    let helper = plan.sets.iter().find(|set| set.name.starts_with("g_twin")).unwrap();
    assert!(
        helper.expr.contains("twin")
            && helper.expr.contains("twin-nothink")
            && helper.expr.contains('|')
    );
    assert_eq!(plan.aux_cost, gb(14.0) as i128);
}

#[test]
fn family_strategy_collapses_declared_groups() {
    let models = vec![
        footprint("embed", ModelType::Embed, Some("/e.gguf"), 5.0),
        footprint("gemma-q4", ModelType::Llm, Some("/g4.gguf"), 20.0),
        footprint("gemma-abliterated", ModelType::Llm, Some("/gab.gguf"), 23.0),
        footprint("other", ModelType::Llm, Some("/o.gguf"), 25.0),
    ];
    let mut policy = Policy { strategy: Strategy::Family, ..Policy::default() };
    policy.groups.insert(
        "gemma".to_string(),
        vec!["gemma-q4".to_string(), "gemma-abliterated".to_string()],
    );
    let plan = plan_of(&models, &policy, 100.0, None).unwrap();

    let helper = plan.sets.iter().find(|set| set.name == "g_gemma").expect("g_gemma helper");
    assert!(
        helper.expr.contains("gemma-q4")
            && helper.expr.contains("gemma-abliterated")
            && helper.expr.contains('|')
    );
    for set in plan.sets.iter().filter(|set| set.name != "g_gemma") {
        assert!(
            !(set.expr.contains("gemma-q4") && set.expr.contains("gemma-abliterated")),
            "set {} co-locates both gemma variants: {}",
            set.name,
            set.expr
        );
    }
    assert!(
        plan.sets.iter().any(|set| set.name.starts_with("pack")
            && set.expr.contains("+g_gemma")
            && set.expr.contains("other")),
        "expected a pack pairing the gemma group with `other`"
    );
}

fn two_wide_groups() -> (Vec<ModelFootprint>, Policy) {
    let mut models = Vec::new();
    let mut policy = Policy { strategy: Strategy::Family, ..Policy::default() };
    for group in ["gA", "gB"] {
        for index in 0..32 {
            models.push(footprint(
                &format!("{group}-{index}"),
                ModelType::Llm,
                Some(&format!("/{group}-{index}.gguf")),
                1.0,
            ));
        }
        policy
            .groups
            .insert(group.to_string(), (0..32).map(|index| format!("{group}-{index}")).collect());
    }
    (models, policy)
}

#[test]
fn overflow_group_omits_the_over_cap_set_and_error_refuses() {
    let (models, group_policy) = two_wide_groups();
    let plan = plan_of(&models, &group_policy, 100.0, None).unwrap();
    assert!(plan.sets.iter().all(|set| set.fanout <= 1000), "an over-cap set survived");
    assert!(
        plan.warnings.iter().any(|warning| warning.contains("omitted")),
        "expected an overflow-omission warning"
    );

    let error_policy = Policy { on_overflow: OnOverflow::Error, ..group_policy };
    let refused = plan_of(&models, &error_policy, 100.0, None);
    assert!(matches!(refused, Err(BuildError::OverCap { fanout: 1024, .. })));
}

#[test]
fn a_fitting_pair_is_declared_and_a_too_big_one_is_not() {
    let plan = plan_of(&scenario(), &Policy::default(), 100.0, None).unwrap();
    let covers_pair = plan.sets.iter().any(|set| {
        set.name.starts_with("pack") && set.expr.contains("small-a") && set.expr.contains("small-b")
    });
    assert!(covers_pair, "expected a pack co-locating small-a + small-b");
}

#[test]
fn no_aux_models_means_no_dangling_aux_reference() {
    let models = vec![
        footprint("model-a", ModelType::Llm, Some("/a.gguf"), 20.0),
        footprint("model-b", ModelType::Llm, Some("/b.gguf"), 25.0),
    ];
    let plan = plan_of(&models, &Policy::default(), 100.0, None).unwrap();
    assert!(!plan.sets.iter().any(|set| set.name == "aux"));
    for set in &plan.sets {
        assert!(!set.expr.contains("+aux"), "dangling +aux in {}: {}", set.name, set.expr);
    }
    let tight = plan_of(&models, &Policy::default(), 30.0, None).unwrap();
    for set in &tight.sets {
        assert!(!set.expr.contains("+aux"), "dangling +aux in {}: {}", set.name, set.expr);
    }
}

fn equal_models(count: usize, d_total: f64) -> Vec<ModelFootprint> {
    (0..count)
        .map(|index| {
            footprint(
                &format!("m{index}"),
                ModelType::Llm,
                Some(&format!("/m{index}.gguf")),
                d_total,
            )
        })
        .collect()
}

#[test]
fn whole_light_roster_that_fits_is_one_maximal_pack() {
    let plan = plan_of(&equal_models(20, 4.0), &Policy::default(), 100.0, None).unwrap();
    let packs: Vec<_> = plan.sets.iter().filter(|set| set.name.starts_with("pack")).collect();
    assert_eq!(packs.len(), 1, "the all-fit roster must yield exactly one maximal pack");
    for index in 0..20 {
        assert!(packs[0].expr.contains(&format!("m{index}")), "pack must contain every unit");
    }
    assert!(plan.warnings.is_empty(), "an all-fit roster is not an overflow");
    for set in &plan.sets {
        assert!(set.footprint <= plan.ceiling);
    }
}

#[test]
fn enumeration_overflow_truncates_and_warns_under_group() {
    let plan = plan_of(&equal_models(40, 8.0), &Policy::default(), 100.0, None).unwrap();
    let packs = plan.sets.iter().filter(|set| set.name.starts_with("pack")).count();
    assert!(packs <= MAX_PACKS, "packs must be bounded by MAX_PACKS");
    assert!(
        plan.warnings.iter().any(|warning| warning.contains("too many co-residency combinations")),
        "expected an enumeration-overflow warning"
    );
    for set in &plan.sets {
        assert!(set.footprint <= plan.ceiling, "{} exceeds ceiling", set.name);
    }
}

#[test]
fn enumeration_overflow_refuses_under_error() {
    let policy = Policy { on_overflow: OnOverflow::Error, ..Policy::default() };
    let refused = plan_of(&equal_models(40, 8.0), &policy, 100.0, None);
    assert!(
        matches!(refused, Err(BuildError::TooManyCombinations { units: 40 })),
        "an enumeration overflow under `error` must refuse the build"
    );
}

/// The cost of a model in a built plan, or `None` if none was emitted for it.
fn cost_of(plan: &MatrixPlan, id: &str) -> Option<u32> {
    plan.evict_costs.iter().find(|(model, _)| model == id).map(|(_, cost)| *cost)
}

#[test]
fn every_runnable_model_gets_a_role_ranked_cost() {
    let plan = plan_of(&scenario(), &Policy::default(), 100.0, None).unwrap();
    for image in ["img-a", "img-b"] {
        assert_eq!(cost_of(&plan, image), Some(1), "{image}");
    }
    for aux in ["embed", "rerank"] {
        assert_eq!(cost_of(&plan, aux), Some(5), "{aux}");
    }
    for llm in ["small-a", "small-b", "mid", "twin", "twin-nothink", "huge"] {
        assert_eq!(cost_of(&plan, llm), Some(10), "{llm}");
    }
    assert_eq!(plan.evict_costs.len(), scenario().len(), "every model, exactly once");
}

#[test]
fn one_llm_outweighs_the_whole_idle_image_pool() {
    let mut models = vec![
        footprint("chat-a", ModelType::Llm, Some("/a.gguf"), 28.0),
        footprint("chat-b", ModelType::Llm, Some("/b.gguf"), 26.0),
        footprint("embed", ModelType::Embed, Some("/e.gguf"), 4.0),
    ];
    for index in 0..4 {
        models.push(footprint(
            &format!("img-{index}"),
            ModelType::Image,
            Some(&format!("/i{index}.gguf")),
            8.0,
        ));
    }
    let plan = plan_of(&models, &Policy::default(), 111.5, None).unwrap();
    let pool: u32 = (0..4).map(|index| cost_of(&plan, &format!("img-{index}")).unwrap()).sum();
    for llm in ["chat-a", "chat-b"] {
        assert!(
            cost_of(&plan, llm).unwrap() > pool,
            "keeping {llm} must beat keeping the {pool}-cost image pool"
        );
    }
    let dear_images = Policy {
        evict_costs: EvictCosts { image: Some(6), ..EvictCosts::default() },
        ..Policy::default()
    };
    let plan = plan_of(&models, &dear_images, 111.5, None).unwrap();
    assert_eq!(cost_of(&plan, "img-0"), Some(6));
    assert_eq!(cost_of(&plan, "chat-a"), Some(25), "4 x 6 + 1");
}

#[test]
fn a_per_id_override_wins_and_an_unknown_id_warns() {
    let mut costs = EvictCosts { aux: Some(2), ..EvictCosts::default() };
    costs.models.insert("small-a".to_string(), 99);
    costs.models.insert("smal-a".to_string(), 99);
    let policy = Policy { evict_costs: costs, ..Policy::default() };
    let plan = plan_of(&scenario(), &policy, 100.0, None).unwrap();

    assert_eq!(cost_of(&plan, "small-a"), Some(99), "the override wins");
    assert_eq!(cost_of(&plan, "small-b"), Some(10), "its neighbour keeps the tier");
    assert_eq!(cost_of(&plan, "embed"), Some(2), "the configured aux tier wins");
    assert!(cost_of(&plan, "smal-a").is_none(), "an unknown id emits nothing");
    assert!(
        plan.warnings.iter().any(|warning| warning.contains("smal-a")),
        "expected a typo warning, got {:?}",
        plan.warnings
    );
}

#[test]
fn a_model_too_big_to_run_gets_no_cost() {
    let models = vec![
        footprint("chat", ModelType::Llm, Some("/c.gguf"), 20.0),
        footprint("giant", ModelType::Llm, Some("/g.gguf"), 200.0),
    ];
    let plan = plan_of(&models, &Policy::default(), 100.0, None).unwrap();
    assert!(plan.excluded.contains(&"giant".to_string()));
    assert!(cost_of(&plan, "giant").is_none(), "nothing can evict what cannot load");
    assert_eq!(cost_of(&plan, "chat"), Some(10));
}

#[test]
fn heavy_that_fits_with_aux_keeps_aux() {
    let models = vec![
        footprint("embed", ModelType::Embed, Some("/e.gguf"), 5.0),
        footprint("small", ModelType::Llm, Some("/s.gguf"), 15.0),
        footprint("heavy", ModelType::Llm, Some("/h.gguf"), 75.0),
    ];
    let plan = plan_of(&models, &Policy::default(), 96.0, None).unwrap();
    let heavy = plan.sets.iter().find(|set| set.name == "heavy_heavy").unwrap();
    assert!(heavy.expr.contains("+aux"), "a heavy that fits with aux must keep it");
    assert!(heavy.footprint <= plan.ceiling);
    assert!(plan.excluded.is_empty());
}

// ---- whole working directories ------------------------------------------------------------

const CLI_CHAT: &str = "/app/llama-server -m /models/chat.gguf -ngl 99 -c 4096 -fa on";
const CLI_EMBED: &str = "/app/llama-server -m /models/e.gguf --embedding --pooling last -c 8192";

fn working_dir() -> (Vec<ModelRecord>, Vec<Option<ModelStore>>, BoxMeta, Policy) {
    let mut chat = entry(30.0, None);
    chat.load_tenths = 200;
    let mut embed = entry(7.0, None);
    embed.load_tenths = 60;
    (
        vec![
            ModelRecord::from_expanded("chat", CLI_CHAT),
            ModelRecord::from_expanded("embed", CLI_EMBED),
        ],
        vec![
            Some(file_of("llm", &param_hash(CLI_CHAT), chat)),
            Some(file_of("embed", &param_hash(CLI_EMBED), embed)),
        ],
        BoxMeta { baseline: gb(0.16), detected_total: Some(gb(100.0)), ..BoxMeta::default() },
        Policy { budget: Some(gb(100.0)), ..Policy::default() },
    )
}

#[test]
fn build_emits_a_matrix_block() {
    let (records, files, meta, policy) = working_dir();
    let block = render(&resolve_plan(&records, &files, &meta, &policy, None).unwrap());
    assert!(block.contains("matrix:"));
    assert!(block.contains("aux:"));
    assert!(block.contains("chat"));
}

/// Equal models that cannot all co-reside, and one aux model that rides along in every pack.
fn crowded_roster(
    count: usize,
    unconfirmed_aux: bool,
) -> (Vec<ModelRecord>, Vec<Option<ModelStore>>, BoxMeta, Policy) {
    let mut records = Vec::new();
    let mut files = Vec::new();
    for index in 0..count {
        let cmd = format!("/app/llama-server -m /models/m{index}.gguf -c 4096");
        records.push(ModelRecord::from_expanded(&format!("m{index}"), &cmd));
        files.push(Some(file_of("llm", &param_hash(&cmd), entry(20.0, Some(true)))));
    }
    let aux_cmd = "/app/llama-server -m /models/e.gguf --embedding --pooling last -c 8192";
    records.push(ModelRecord::from_expanded("embed", aux_cmd));
    let confirmed = if unconfirmed_aux { None } else { Some(true) };
    files.push(Some(file_of("embed", &param_hash(aux_cmd), entry(5.0, confirmed))));
    let meta =
        BoxMeta { baseline: gb(0.16), detected_total: Some(gb(100.0)), ..BoxMeta::default() };
    let policy = Policy { budget: Some(gb(100.0)), margin: gb(4.0), ..Policy::default() };
    (records, files, meta, policy)
}

#[test]
fn a_warning_does_not_list_every_pack_by_name() {
    let (records, files, meta, policy) = crowded_roster(8, true);
    let block = render(&resolve_plan(&records, &files, &meta, &policy, None).unwrap());
    let warning = block
        .lines()
        .find(|line| line.contains("without confirming"))
        .expect("an unconfirmed aux footprint must warn");
    let packs = block.lines().filter(|line| line.trim_start().starts_with("pack")).count();
    assert!(packs > 8, "the fixture must produce many packs, got {packs}");
    assert_eq!(packs, 70, "four of eight at a time");
    assert!(warning.contains("declared sets"), "a ratio, not a roll-call: {warning}");
    let named = (0..70).filter(|index| warning.contains(&format!("pack{index}"))).count();
    assert!(named <= 8, "warning names {named} packs individually: {warning}");
    assert!(warning.len() < 400, "warning is {} chars: {warning}", warning.len());
}

#[test]
fn a_hand_set_proxy_does_not_warn_as_unconfirmed_forever() {
    let (mut records, mut files, meta, policy) = crowded_roster(4, false);
    records.push(ModelRecord::from_expanded("tts-1", "sleep infinity"));
    files.push(Some(file_of("tts-proxy", "manual", entry(0.1, None))));
    let block = render(&resolve_plan(&records, &files, &meta, &policy, None).unwrap());
    assert!(
        !block.contains("without confirming"),
        "a hand-set proxy must not read as an unconfirmed measurement:\n{block}"
    );
    assert!(block.contains("tts-1"), "the proxy is still in the matrix:\n{block}");
}

// ---- exact values -------------------------------------------------------------------------

#[test]
fn the_scenario_is_declared_exactly() {
    let plan = plan_of(&scenario(), &Policy::default(), 100.0, None).unwrap();
    let sets: Vec<(&str, &str)> =
        plan.sets.iter().map(|set| (set.name.as_str(), set.expr.as_str())).collect();
    assert_eq!(
        sets,
        vec![
            ("aux", "embed & rerank"),
            ("g_twin", "(twin | twin-nothink)"),
            ("images", "img-a & img-b & +aux"),
            ("pack1", "small-a & small-b & +g_twin & +aux"),
            ("pack2", "small-a & mid & +g_twin & +aux"),
            ("pack3", "small-b & mid & +aux"),
            ("llmimg_small_a", "small-a & img-a & img-b & +aux"),
            ("llmimg_small_b", "small-b & img-a & img-b & +aux"),
            ("llmimg_mid", "mid & img-a & img-b & +aux"),
            ("llmimg_twin", "+g_twin & img-a & img-b & +aux"),
            ("heavy_huge", "huge & img-a"),
        ]
    );
    let pack = plan.sets.iter().find(|set| set.name == "pack1").unwrap();
    assert_eq!(pack.footprint, gb(0.16) as i128 + gb(79.0) as i128);
    assert_eq!(pack.fanout, 2);
    assert_eq!(pack.comment, "79.2 GB: small_a+small_b+twin");
}

#[test]
fn packs_are_the_maximal_ones() {
    let sizes = vec![gb(3.0), gb(5.0), gb(2.0)];
    let mut packs = Vec::new();
    let mut node_budget: usize = 1000;
    let mut current = Vec::new();
    let complete = enumerate_maximal_packs(
        0,
        &mut current,
        0,
        &sizes,
        gb(7.0) as i128,
        &mut node_budget,
        &mut packs,
    );
    assert!(complete);
    assert_eq!(packs, vec![vec![0, 2], vec![1, 2]]);
}

#[test]
fn no_budget_is_an_error_and_never_a_guess() {
    let (records, files, mut meta) = store_and_config(&[]);
    meta.detected_total = None;
    let error =
        resolve_plan(&records, &files, &meta, &Policy::default(), None).expect_err("no budget");
    assert!(matches!(error, BuildError::NoBudget));
    assert!(error.message().contains("no budget set"), "{}", error.message());
    // A flag wins over the policy, and the policy over what was detected.
    let plan = resolve_plan(&records, &files, &meta, &Policy::default(), Some(gb(60.0))).unwrap();
    assert_eq!(plan.budget, gb(60.0));
    let policy = budgeted(OnUnconfirmed::Warn);
    let plan = resolve_plan(&records, &files, &meta, &policy, None).unwrap();
    assert_eq!(plan.budget, gb(100.0));
}

#[test]
fn an_unmeasured_model_is_excluded_by_name() {
    let (records, mut files, meta) = store_and_config(&[]);
    files[1] = None;
    let plan =
        resolve_plan(&records, &files, &meta, &budgeted(OnUnconfirmed::Warn), None).unwrap();
    assert_eq!(plan.excluded, vec!["chat".to_string()]);
    assert!(plan.sets.iter().all(|set| !set.expr.contains("chat")));
    assert!(cost_of(&plan, "chat").is_none());
}

#[test]
fn a_pool_that_cannot_fit_is_refused() {
    let models = vec![
        footprint("img-a", ModelType::Image, Some("/a.gguf"), 40.0),
        footprint("img-b", ModelType::Image, Some("/b.gguf"), 40.0),
    ];
    let error = plan_of(&models, &Policy::default(), 60.0, None).expect_err("80 GB in 56");
    match &error {
        BuildError::UnsafeSet { name, ceiling, .. } => {
            assert_eq!(name, "images");
            assert_eq!(*ceiling, gb(56.0) as i128);
        }
        _ => panic!("{error:?}"),
    }
    assert!(error.message().contains("refusing to emit an unsafe matrix"));
}

#[test]
fn host_cost_adds_the_prompt_cache_cap() {
    let cmd = "/app/llama-server -m /models/a.gguf -c 4096";
    let capped = "/app/llama-server -m /models/b.gguf -c 4096 -cram 1024";
    let mut a = entry(10.0, Some(true));
    a.d_host = Some(gb(1.0));
    let mut b = entry(10.0, Some(true));
    b.d_host = Some(gb(1.0));
    let records =
        vec![ModelRecord::from_expanded("a", cmd), ModelRecord::from_expanded("b", capped)];
    let files = vec![
        Some(file_of("llm", &param_hash(cmd), a)),
        Some(file_of("llm", &param_hash(capped), b)),
    ];
    let meta = BoxMeta {
        baseline: gb(0.0),
        detected_total: Some(gb(100.0)),
        host_total: Some(gb(64.0)),
        host_baseline: Some(gb(4.0)),
        ..BoxMeta::default()
    };
    let plan = resolve_plan(&records, &files, &meta, &Policy::default(), None).unwrap();
    let pack = plan.sets.iter().find(|set| set.name == "pack1").unwrap();
    // 4 + (1 + the assumed 8) + (1 + the stated 1)
    assert_eq!(pack.host_footprint, Some(gb(15.0) as i128));
    assert_eq!(plan.host_skipped, None);

    // What is left for the one assumed cache: 64 - 4 - 4 - 1 - 2 = 53 GB.
    assert_eq!(plan.host_cram_gb, Some(gb(53.0) as i128));

    // Without one host reading, no host sum is claimed at all.
    let bare = vec![
        Some(file_of("llm", &param_hash(cmd), entry(10.0, Some(true)))),
        Some(file_of("llm", &param_hash(capped), entry(10.0, Some(true)))),
    ];
    let plan = resolve_plan(&records, &bare, &meta, &Policy::default(), None).unwrap();
    assert_eq!(plan.host_ceiling, None);
    assert!(plan.host_skipped.unwrap().starts_with("2 model(s) have no recorded host-RAM"));
}

fn host_roster(host_budget: f64) -> MatrixPlan {
    let mut records = Vec::new();
    let mut files = Vec::new();
    for id in ["a", "b", "c"] {
        let cmd = format!("/app/llama-server -m /models/{id}.gguf -c 4096");
        let mut reading = entry(20.0, Some(true));
        reading.d_host = Some(gb(1.5));
        files.push(Some(file_of("llm", &param_hash(&cmd), reading)));
        records.push(ModelRecord::from_expanded(id, &cmd));
    }
    let meta = BoxMeta {
        baseline: 0,
        detected_total: Some(gb(100.0)),
        host_total: Some(gb(host_budget)),
        host_baseline: Some(gb(4.0)),
        ..BoxMeta::default()
    };
    resolve_plan(&records, &files, &meta, &Policy::default(), None).unwrap()
}

#[test]
fn an_overfull_host_gets_a_cap_to_set() {
    // 4 + 3 x 1.5 = 8.5 GB are fixed; 28 - 8.5 = 19.5 GB for three caches is 6.5 GB each.
    let plan = host_roster(32.0);
    assert_eq!(plan.host_over.len(), 1);
    assert_eq!(plan.host_cram_gb, Some(gb(6.5) as i128));
    assert!(plan.warnings.iter().any(|warning| warning.starts_with("`-cram 6656` on every")));
    // In whole steps of 256 MiB.
    assert_eq!(host_roster(31.9).host_cram_gb, Some(gb(6.25) as i128));
    // Over without any cache: no cap helps.
    let plan = host_roster(12.0);
    assert_eq!(plan.host_cram_gb, None);
    assert!(plan.warnings.iter().any(|warning| warning.starts_with("no `-cram` value")));
    // Not over: the cap is still told, and nothing is advised.
    let plan = host_roster(64.0);
    assert_eq!(plan.host_cram_gb, Some(gb(17.0) as i128));
    assert!(plan.warnings.is_empty());
}

#[test]
fn expressions_are_read_back() {
    let names: Vec<String> = expr_tokens("(a | b) & +g_x & c");
    assert_eq!(names, vec!["a", "b", "+g_x", "c"]);
    let plan = plan_of(&scenario(), &Policy::default(), 100.0, None).unwrap();
    let pack = plan.sets.iter().find(|set| set.name == "pack1").unwrap();
    assert_eq!(
        set_member_ids(&plan.sets, pack),
        vec!["small-a", "small-b", "twin", "embed", "rerank"]
    );
}

#[test]
fn unit_keys_are_safe() {
    assert_eq!(safe_key("Qwen3.5-9b q4"), "Qwen3_5_9b_q4");
    let models = scenario();
    let llms: Vec<&ModelFootprint> =
        models.iter().filter(|model| model.model_type == ModelType::Llm).collect();
    let units = collapse_units(&llms, &Policy::default());
    let keys: Vec<&str> = units.iter().map(|unit| unit.key.as_str()).collect();
    assert_eq!(keys, vec!["small_a", "small_b", "mid", "twin", "huge"]);
    assert_eq!(units[3].ids, vec!["twin", "twin-nothink"]);
}

#[test]
fn costs_have_no_part_in_what_fits() {
    let dear = Policy {
        evict_costs: EvictCosts { llm: Some(1), image: Some(900), ..EvictCosts::default() },
        ..Policy::default()
    };
    let plain = plan_of(&scenario(), &Policy::default(), 100.0, None).unwrap();
    let priced = plan_of(&scenario(), &dear, 100.0, None).unwrap();
    assert_ne!(plain.evict_costs, priced.evict_costs);
    let sets = |plan: &MatrixPlan| -> Vec<(String, String)> {
        plan.sets.iter().map(|set| (set.name.clone(), set.expr.clone())).collect()
    };
    assert_eq!(sets(&plain), sets(&priced));
}

#[test]
fn as_many_images_as_fit_go_beside_a_unit() {
    let models = vec![
        footprint("img-c", ModelType::Image, Some("/c.gguf"), 3.0),
        footprint("img-a", ModelType::Image, Some("/a.gguf"), 1.0),
        footprint("img-b", ModelType::Image, Some("/b.gguf"), 2.0),
        footprint("chat", ModelType::Llm, Some("/m.gguf"), 20.0),
    ];
    // 28 - 4 - 0.16 - 20 leaves 3.84 GB: two of the three.
    let plan = plan_of(&models, &Policy::default(), 28.0, None).unwrap();
    let mixed = plan.sets.iter().find(|set| set.name == "llmimg_chat").unwrap();
    assert_eq!(mixed.expr, "chat & img-a & img-b");
}

#[test]
fn any_variant_of_a_declared_pack_fits() {
    let models = vec![
        footprint("q4", ModelType::Llm, Some("/one.gguf"), 20.0),
        footprint("q4-long", ModelType::Llm, Some("/one.gguf"), 30.0),
        footprint("other", ModelType::Llm, Some("/other.gguf"), 25.0),
    ];
    // Sized by the larger variant, 30 + 25 does not fit in 54; by the smaller it would.
    let plan = plan_of(&models, &Policy::default(), 58.0, None).unwrap();
    assert_eq!(plan.n_packs, 0);
    assert_eq!(plan.n_heavies, 2);
    let plan = plan_of(&models, &Policy::default(), 60.0, None).unwrap();
    let pack = plan.sets.iter().find(|set| set.name == "pack1").unwrap();
    assert_eq!(pack.expr, "+g_q4 & other");
    assert_eq!(pack.footprint, gb(55.16) as i128);
}

#[test]
fn what_is_left_out_is_not_referred_to() {
    // The ride-along alone is over the host ceiling, so nothing that needs it is declared.
    let with_host = |id: &str, model_type: ModelType, gpu: f64, host: f64| ModelFootprint {
        host_gb: Some(gb(host)),
        cache_gb: 0,
        holds_cache: false,
        id: id.to_string(),
        model_type,
        primary_file: Some(format!("/{id}.gguf")),
        d_total: gb(gpu),
    };
    let models = vec![
        with_host("embed", ModelType::Embed, 2.0, 30.0),
        with_host("a", ModelType::Llm, 20.0, 1.0),
        with_host("b", ModelType::Llm, 25.0, 1.0),
    ];
    let policy = Policy { on_host_overflow: OnHostOverflow::Exclude, ..Policy::default() };
    let host = Some(HostBudget { baseline: gb(1.0), total: gb(32.0) });
    let plan = plan_of(&models, &policy, 100.0, host).unwrap();
    assert!(plan.sets.is_empty());
    assert!(plan.warnings.iter().any(|warning| warning.ends_with("(excluded)")));
}

// ---- caps ---------------------------------------------------------------------------------

fn named<'a>(plan: &'a MatrixPlan, prefix: &str) -> Vec<&'a str> {
    plan.sets
        .iter()
        .filter(|set| set.name.starts_with(prefix))
        .map(|set| set.expr.as_str())
        .collect()
}

#[test]
fn a_cap_on_models_splits_what_would_fit() {
    let models: Vec<ModelFootprint> = ["a", "b", "c", "d"]
        .iter()
        .map(|id| footprint(id, ModelType::Llm, Some(&format!("/{id}.gguf")), 10.0))
        .collect();
    let plan = plan_of(&models, &Policy::default(), 100.0, None).unwrap();
    assert_eq!(named(&plan, "pack"), vec!["a & b & c & d"]);
    assert_eq!((plan.sets[0].models, plan.sets[0].caches), (4, 0));

    let policy = Policy { max_models_per_set: Some(2), ..Policy::default() };
    let plan = plan_of(&models, &policy, 100.0, None).unwrap();
    assert_eq!(
        named(&plan, "pack"),
        vec!["a & b", "a & c", "a & d", "b & c", "b & d", "c & d"],
        "every pair is declared, and nothing more"
    );
    assert!(plan.sets.iter().all(|set| set.models <= 2));
    // What keeps within the cap anyway is as it was.
    let policy = Policy { max_models_per_set: Some(4), ..Policy::default() };
    let plan = plan_of(&models, &policy, 100.0, None).unwrap();
    assert_eq!(named(&plan, "pack"), vec!["a & b & c & d"]);
}

#[test]
fn ride_alongs_and_images_count_against_a_cap() {
    let mut models = vec![footprint("embed", ModelType::Embed, Some("/e.gguf"), 2.0)];
    for id in ["i", "j", "k"] {
        models.push(footprint(id, ModelType::Image, Some(&format!("/{id}.gguf")), 4.0));
    }
    models.push(footprint("chat", ModelType::Llm, Some("/c.gguf"), 20.0));
    models.push(footprint("side", ModelType::Llm, Some("/s.gguf"), 20.0));
    models.push(footprint("huge", ModelType::Llm, Some("/h.gguf"), 85.0));
    let uncapped = plan_of(&models, &Policy::default(), 100.0, None).unwrap();
    assert_eq!(named(&uncapped, "images"), vec!["i & j & k & +aux"]);
    assert_eq!(
        named(&uncapped, "llmimg_"),
        vec!["chat & i & j & k & +aux", "side & i & j & k & +aux"]
    );

    let policy = Policy { max_models_per_set: Some(3), ..Policy::default() };
    let plan = plan_of(&models, &policy, 100.0, None).unwrap();
    assert_eq!(named(&plan, "images"), vec!["i & j & +aux", "k & +aux"]);
    assert_eq!(named(&plan, "llmimg_"), vec!["chat & i & +aux", "side & i & +aux"]);
    assert_eq!(named(&plan, "pack"), vec!["chat & side & +aux"]);
    assert_eq!(named(&plan, "heavy_"), vec!["huge & i & +aux"]);
    assert!(plan.sets.iter().all(|set| set.models <= 3));

    let policy = Policy { max_models_per_set: Some(1), ..Policy::default() };
    let refused = plan_of(&models, &policy, 100.0, None).expect_err("no room");
    assert_eq!(
        refused.message(),
        "`max_models_per_set = 1` leaves no room for a model beside the 1 ride-along(s) that \
         every set reserves - raise it, or name fewer in `[roles]`"
    );
}

#[test]
fn a_cap_on_caches_counts_only_those_that_hold_one() {
    let holder = |id: &str, holds_cache: bool| ModelFootprint {
        holds_cache,
        ..footprint(id, ModelType::Llm, Some(&format!("/{id}.gguf")), 10.0)
    };
    let models = vec![holder("a", true), holder("b", true), holder("c", false), holder("d", true)];
    let policy = Policy { max_cache_holders_per_set: Some(1), ..Policy::default() };
    let plan = plan_of(&models, &policy, 100.0, None).unwrap();
    assert_eq!(named(&plan, "pack"), vec!["a & c", "b & c", "c & d"]);
    assert!(plan.sets.iter().all(|set| set.caches <= 1));
    let policy = Policy { max_cache_holders_per_set: Some(0), ..Policy::default() };
    assert!(matches!(
        plan_of(&models, &policy, 100.0, None),
        Err(BuildError::NoRoom { most: 0, reserved: 0, .. })
    ));
}

#[test]
fn a_roster_that_does_not_fit_comes_with_measured_alternatives() {
    let record = |id: &str| {
        ModelRecord::from_expanded(id, &format!("/app/llama-server -m /{id}.gguf -c 65536"))
    };
    let records = vec![record("a"), record("b")];
    let taken = |d_total: f64, params: &str, status: &str| Measurement {
        status: status.to_string(),
        d_total: gb(d_total),
        allocation_confirmed: Some(true),
        params: params.to_string(),
        ..Measurement::default()
    };
    let file = |record: &ModelRecord| {
        let mut file = ModelStore::empty(record);
        file.measurements.insert(record.param_hash.clone(), taken(60.0, "now", "ok"));
        file.measurements.insert("small".to_string(), taken(26.96, "-c\n 8192", "ok"));
        file.measurements.insert("large".to_string(), taken(70.0, "-c 131072", "ok"));
        file.measurements.insert("broken".to_string(), taken(1.0, "-c 1", "FAILED"));
        file
    };
    let files = vec![Some(file(&records[0])), None];
    let both = vec![Some(file(&records[0])), Some(file(&records[1]))];
    let meta = BoxMeta::default();
    let resolved = |files: &Vec<Option<ModelStore>>, budget: f64| {
        resolve_plan(&records, files, &meta, &Policy::default(), Some(gb(budget))).unwrap()
    };
    let told = |plan: &MatrixPlan| -> Vec<String> {
        plan.warnings.iter().filter(|text| text.contains("saves")).cloned().collect()
    };
    assert_eq!(
        told(&resolved(&both, 100.0)),
        vec![
            "`a` is planned at 60.00 GB, and was measured on this box at less: 26.96 GB (saves \
             33.04 GB) with `-c 8192`",
            "`b` is planned at 60.00 GB, and was measured on this box at less: 26.96 GB (saves \
             33.04 GB) with `-c 8192`",
        ]
    );
    // Everything fits at once, so there is nothing to save for.
    assert!(told(&resolved(&both, 200.0)).is_empty());
    assert!(told(&resolved(&files, 100.0)).is_empty());
}

#[test]
fn sets_have_names_of_their_own() {
    let mut models = scenario();
    models.push(footprint("img-c", ModelType::Image, Some("/ic.gguf"), 3.0));
    for max_models_per_set in [None, Some(4)] {
        let policy = Policy { max_models_per_set, ..Policy::default() };
        let plan = plan_of(&models, &policy, 100.0, None).unwrap();
        for (at, set) in plan.sets.iter().enumerate() {
            assert!(plan.sets[..at].iter().all(|other| other.name != set.name), "{}", set.name);
        }
    }
}
