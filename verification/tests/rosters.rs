//! Configs, policies and commands: what a roster is made of.

use indexmap::IndexMap;
use llama_matrix::config::{apply_types, expand_macros, normalize_ws, parse_entries};
use llama_matrix::model::{
    declared_cache_ram_gb, looks_like_proxy, primary_file, type_from_cmd, weight_files,
    ModelRecord, ModelType,
};
use llama_matrix::param_hash::{memory_cmd, memory_tokens, param_hash, short_key};
use llama_matrix::policy::{
    CostRole, EvictCosts, OnHostOverflow, OnOverflow, OnUnconfirmed, Policy, PolicyError,
    Strategy, AUX_EVICT_COST, MIN_LLM_EVICT_COST,
};

fn gb(amount: f64) -> i64 {
    (amount * 1_024_000_000.0).round() as i64
}

// ---- commands -----------------------------------------------------------------------------

#[test]
fn type_derivation() {
    assert_eq!(
        type_from_cmd("/opt/sdcpp/bin/sd-server --diffusion-model /x.gguf"),
        ModelType::Image
    );
    assert_eq!(type_from_cmd("/opt/whisper/bin/whisper-server -m /x.bin"), ModelType::Stt);
    assert_eq!(
        type_from_cmd("/app/llama-server -m /x.gguf --reranking --pooling rank --embedding"),
        ModelType::Rerank
    );
    assert_eq!(
        type_from_cmd("/app/llama-server -m /x.gguf --embedding --pooling last"),
        ModelType::Embed
    );
    assert_eq!(type_from_cmd("/app/llama-server -m /x.gguf -c 4096"), ModelType::Llm);
}

#[test]
fn primary_file_priority() {
    assert_eq!(
        primary_file("/opt/sdcpp/bin/sd-server --diffusion-model /sd/u.gguf --vae /sd/vae"),
        Some("/sd/u.gguf".to_string())
    );
    assert_eq!(
        primary_file("/app/llama-server -m /models/a.gguf -ngl 99"),
        Some("/models/a.gguf".to_string())
    );
    assert_eq!(primary_file("/app/llama-server -ngl 99"), None);
}

#[test]
fn weight_files_collects_every_named_file() {
    let sd = "/opt/sdcpp/bin/sd-server --diffusion-model /sd/unet/z.Q6_K.gguf \
              --llm /sd/text_encoders/qwen3.Q4_K_M.gguf --vae /sd/vae/ae.safetensors \
              --diffusion-fa --vae-tiling --steps 8";
    assert_eq!(
        weight_files(sd),
        vec![
            "/sd/unet/z.Q6_K.gguf".to_string(),
            "/sd/text_encoders/qwen3.Q4_K_M.gguf".to_string(),
            "/sd/vae/ae.safetensors".to_string(),
        ]
    );
    assert_eq!(
        weight_files("/opt/whisper/bin/whisper-server -m /m/ggml.bin --model /m/ggml.bin"),
        vec!["/m/ggml.bin".to_string()]
    );
    assert!(weight_files("/app/llama-server -ngl 99 -o /tmp/out.png").is_empty());
}

#[test]
fn cache_ram_is_read_in_mib_and_absence_is_not_zero() {
    assert_eq!(
        declared_cache_ram_gb("/app/llama-server -m /m.gguf -cram 4096"),
        Some(gb(4.0))
    );
    assert_eq!(
        declared_cache_ram_gb("/app/llama-server -m /m.gguf --cache-ram 8192 -c 4096"),
        Some(gb(8.0))
    );
    assert_eq!(declared_cache_ram_gb("/app/llama-server -m /m.gguf -cram 0"), Some(gb(0.0)));
    assert_eq!(declared_cache_ram_gb("/app/llama-server -m /m.gguf -c 4096"), None);
    assert_eq!(declared_cache_ram_gb("/app/llama-server -m /m.gguf -cram"), None);
    assert_eq!(
        declared_cache_ram_gb("/app/llama-server -m /m.gguf -cram 8e3"),
        Some(8_000_000_000)
    );
}

#[test]
fn proxy_detection() {
    let r = ModelRecord::from_expanded("tts-1", "sleep infinity");
    assert_eq!(r.model_type, ModelType::TtsProxy);
    assert_eq!(r.primary_file, None);
    assert!(looks_like_proxy("sleep infinity"));
}

#[test]
fn type_names_are_read_back() {
    for model_type in [
        ModelType::Llm,
        ModelType::Embed,
        ModelType::Rerank,
        ModelType::Image,
        ModelType::Stt,
        ModelType::TtsProxy,
    ] {
        assert_eq!(ModelType::from_name(model_type.as_str()), Some(model_type));
    }
    assert_eq!(ModelType::from_name("LLM"), None);
}

// ---- the key ------------------------------------------------------------------------------

#[test]
fn strips_port_and_reasoning() {
    let base = "/app/llama-server -m /models/g.gguf --host 127.0.0.1 --port 9001 \
                -ngl 99 -c 262144 -np 2 -fa on --jinja";
    let nothink = "/app/llama-server -m /models/g.gguf --host 127.0.0.1 --port 9006 \
                   -ngl 99 -c 262144 -np 2 -fa on --reasoning off --jinja";
    assert_eq!(param_hash(base), param_hash(nothink));
    assert_eq!(
        memory_cmd(base),
        "/app/llama-server -m /models/g.gguf -ngl 99 -c 262144 -np 2 -fa on"
    );
    assert_eq!(memory_cmd(&memory_cmd(base)), memory_cmd(base));
    assert_eq!(memory_tokens("a --port 1 b"), vec!["a", "b"]);
}

#[test]
fn distinguishes_np_and_context() {
    let next = "/app/llama-server -m /models/coder.gguf -ngl 99 -c 262144 -np 2 -fa on";
    let ultra = "/app/llama-server -m /models/coder.gguf -ngl 99 -c 1572864 -np 6 -fa on";
    assert_ne!(param_hash(next), param_hash(ultra));
}

#[test]
fn hash_is_twelve_hex() {
    let h = param_hash("/app/llama-server -m /x.gguf -c 4096");
    assert_eq!(h.len(), 12);
    assert!(h.chars().all(|c| c.is_ascii_hexdigit()));
}

#[test]
fn the_key_is_the_start_of_the_sha1() {
    // SHA-1 of "abc" is a9993e36 4706816a ba3e2571 7850c26c 9cd0d89d.
    assert_eq!(param_hash("abc"), "a9993e364706");
    assert_eq!(short_key(&vec![0xa9, 0x99, 0x3e, 0x36, 0x47, 0x06, 0x81]), "a9993e364706");
    assert_eq!(param_hash("abc --port 9001"), param_hash("abc"));
}

#[test]
fn sampling_knobs_are_stripped_but_the_step_cache_is_not() {
    let base =
        "/opt/sdcpp/bin/sd-server --diffusion-model /sd/u.gguf --steps 16 --cfg-scale 4.0";
    let restepped =
        "/opt/sdcpp/bin/sd-server --diffusion-model /sd/u.gguf --steps 28 --cfg-scale 6.0";
    assert_eq!(param_hash(base), param_hash(restepped));

    let cached = "/opt/sdcpp/bin/sd-server --diffusion-model /sd/u.gguf --steps 16 \
                  --cfg-scale 4.0 --cache-mode easycache --cache-option threshold=0.05";
    assert_ne!(param_hash(base), param_hash(cached));
    let looser = cached.replace("threshold=0.05", "threshold=0.2");
    assert_ne!(param_hash(&looser), param_hash(cached));
}

#[test]
fn quant_change_changes_hash() {
    let q4 = "/app/llama-server -m /models/Cydonia-Q4_K_L.gguf -c 0 -fa on";
    let q6 = "/app/llama-server -m /models/Cydonia-Q6_K.gguf -c 0 -fa on";
    assert_ne!(param_hash(q4), param_hash(q6));
}

// ---- configs ------------------------------------------------------------------------------

#[test]
fn parses_expands_and_classifies() {
    let mut macros = IndexMap::new();
    macros.insert("server".to_string(), "/app/llama-server -ngl 99 -fa on".to_string());
    macros.insert("mdir".to_string(), "/models".to_string());
    let entries = vec![
        (
            "chat".to_string(),
            Some(
                "${server} -m ${mdir}/chat.gguf --host 127.0.0.1 --port 9001 -c 4096 --jinja\n"
                    .to_string(),
            ),
        ),
        (
            "embed".to_string(),
            Some(
                "/app/llama-server -m /models/e.gguf --embedding --pooling last -c 8192"
                    .to_string(),
            ),
        ),
        ("router".to_string(), None),
    ];
    let models = parse_entries(&entries, &macros, &Vec::new());
    assert_eq!(models.len(), 2);

    let chat = &models[0];
    assert_eq!(chat.id, "chat");
    assert_eq!(
        chat.cmd,
        "/app/llama-server -ngl 99 -fa on -m /models/chat.gguf --host 127.0.0.1 --port 9001 -c 4096 --jinja"
    );
    assert_eq!(chat.model_type, ModelType::Llm);
    assert_eq!(chat.primary_file, Some("/models/chat.gguf".to_string()));

    let embed = &models[1];
    assert_eq!(embed.model_type, ModelType::Embed);
}

#[test]
fn env_and_model_id_substitution() {
    let environment = vec![("LM_TEST_MODELS".to_string(), "/srv/w".to_string())];
    let entries = vec![(
        "m1".to_string(),
        Some(
            "/app/llama-server -m ${env.LM_TEST_MODELS}/${MODEL_ID}.gguf -c 2048".to_string(),
        ),
    )];
    let models = parse_entries(&entries, &IndexMap::new(), &environment);
    assert_eq!(models[0].primary_file, Some("/srv/w/m1.gguf".to_string()));
}

#[test]
fn placeholders_nobody_defines_stay() {
    let mut macros = IndexMap::new();
    macros.insert("loop".to_string(), "x${loop}".to_string());
    macros.insert("outer".to_string(), "<${inner}>".to_string());
    macros.insert("inner".to_string(), "deep".to_string());
    let none: Vec<(String, String)> = Vec::new();
    let expand = |text: &str| expand_macros(text, &macros, &none, "m");
    assert_eq!(expand("--port ${PORT} ${nobody} ${}"), "--port ${PORT} ${nobody} ${}");
    assert_eq!(expand("${outer} ${env.UNSET}|"), "<deep> |");
    // A macro that names itself stops after sixteen passes.
    assert_eq!(expand("${loop}"), format!("{}${{loop}}", "x".repeat(16)));
    assert_eq!(expand("plain ${ unclosed"), "plain ${ unclosed");
    assert_eq!(normalize_ws("  a\n\tb  c\n"), "a b c");
}

#[test]
fn declared_types_override_derived_ones() {
    let mut policy = Policy::default();
    policy.types.insert("odd".to_string(), "image".to_string());
    let mut records = vec![
        ModelRecord::from_expanded("odd", "/opt/own/server -m /w.gguf"),
        ModelRecord::from_expanded("even", "/opt/own/server -m /w.gguf"),
    ];
    let hash = records[0].param_hash.clone();
    apply_types(&mut records, &policy);
    assert_eq!(records[0].model_type, ModelType::Image);
    assert_eq!(records[0].param_hash, hash);
    assert_eq!(records[1].model_type, ModelType::Llm);
}

// ---- policies -----------------------------------------------------------------------------

#[test]
fn defaults_when_absent() {
    let p = Policy::default();
    assert_eq!(p.endpoint, "http://localhost:8080");
    assert_eq!(p.margin, gb(4.0));
    assert_eq!(p.strategy, Strategy::Flat);
    assert!(p.budget.is_none());
    assert_eq!(p.host_margin, gb(4.0));
    assert_eq!(p.host_cache_gb, gb(8.0));
    assert_eq!(p.on_overflow, OnOverflow::Group);
    assert_eq!(p.on_host_overflow, OnHostOverflow::Warn);
    assert_eq!(p.on_unconfirmed, OnUnconfirmed::Warn);
    assert_eq!(p.probe_image_size, "1024x1024");
}

#[test]
fn paths_are_mapped_by_the_first_prefix() {
    let mut policy = Policy::default();
    policy.paths.insert("/models".to_string(), "/srv/w".to_string());
    assert_eq!(policy.to_host("/models/a.gguf"), "/srv/w/a.gguf");
    assert_eq!(policy.to_host("/other/a.gguf"), "/other/a.gguf");
}

#[test]
fn an_unknown_declared_type_is_rejected() {
    let mut policy = Policy::default();
    policy.types.insert("m".to_string(), "image".to_string());
    assert!(policy.validate().is_ok());
    assert_eq!(policy.declared_type("m"), Some(ModelType::Image));

    for bad in ["diffusion", "LLM", "tts_proxy", ""] {
        policy.types.insert("m".to_string(), bad.to_string());
        let error = policy.validate().expect_err("not a type");
        assert!(error.message().contains("is not a model type"), "accepted `{bad}`");
        assert!(matches!(error, PolicyError::UnknownType { .. }));
    }
}

#[test]
fn evict_cost_resolution_order() {
    let mut costs = EvictCosts { image: Some(3), ..EvictCosts::default() };
    costs.models.insert("pinned-chat".to_string(), 40);
    assert_eq!(costs.of("pinned-chat", CostRole::Llm, 0), 40);
    assert_eq!(costs.of("some-image", CostRole::Image, 0), 3);
    assert_eq!(costs.of("embed", CostRole::Aux, 0), AUX_EVICT_COST);
    assert_eq!(costs.of("chat", CostRole::Llm, 4), MIN_LLM_EVICT_COST);
    assert_eq!(costs.of("chat", CostRole::Llm, 30), 31);
}

#[test]
fn a_zero_or_absurd_cost_is_rejected() {
    let zero = EvictCosts { image: Some(0), ..EvictCosts::default() };
    let error = zero.validate().expect_err("zero");
    assert!(matches!(error, PolicyError::ZeroCost { .. }));
    assert!(error.message().contains("evict_costs"), "{}", error.message());

    let mut pinned = EvictCosts::default();
    pinned.models.insert("chat".to_string(), 0);
    let error = pinned.validate().expect_err("zero");
    assert!(error.message().contains("evict_costs"), "{}", error.message());

    let absurd = EvictCosts { llm: Some(2_000_000), ..EvictCosts::default() };
    let error = absurd.validate().expect_err("absurd");
    assert!(matches!(error, PolicyError::CostAboveCeiling { cost: 2_000_000, .. }));
    assert!(error.message().contains("evict_costs"), "{}", error.message());

    assert!(EvictCosts { aux: Some(7), ..EvictCosts::default() }.validate().is_ok());
}
