//! The generated block: rendered, spliced into a config, and read back.

use llama_matrix::apply::{
    backup_path, existing_block, in_sync, judge, splice, ApplyResult, Liveness, Verdict,
};
use llama_matrix::build::build;
use llama_matrix::matrix::{render, MARKER};
use llama_matrix::model::ModelType;
use llama_matrix::plan::{BuildInput, MatrixPlan};
use llama_matrix::policy::Policy;
use llama_matrix::report::{BuildApplied, BuildPreview, Drift};
use llama_matrix::units::ModelFootprint;

const BLOCK: &str = "# ==== GENERATED matrix block (llama-matrix) ====\nmatrix:\n  sets:\n    aux: \"e\"\n";

fn gb(amount: f64) -> i64 {
    (amount * 1_024_000_000.0).round() as i64
}

#[test]
fn replaces_a_previous_generated_block() {
    let config = "models:\n  \"a\":\n    cmd: x\n\n# ==== GENERATED matrix block (replaces the entire `groups:` block) ====\n# old header\nmatrix:\n  sets:\n    old: \"z\"\n";
    let out = splice(config, BLOCK);
    assert!(out.contains("models:"));
    assert!(!out.contains("old header"), "stale block must be gone");
    assert!(!out.contains("old: \"z\""));
    assert!(out.trim_end().ends_with("aux: \"e\""));
    assert_eq!(out.matches("# ==== GENERATED matrix block").count(), 1);
}

#[test]
fn replaces_a_top_level_matrix_block_without_marker() {
    let config = "models:\n  \"a\":\n    cmd: x\nmatrix:\n  sets:\n    old: \"z\"\n";
    let out = splice(config, BLOCK);
    assert!(out.contains("models:"));
    assert!(!out.contains("old: \"z\""));
    assert!(out.contains("aux: \"e\""));
}

#[test]
fn replaces_a_groups_block() {
    let config = "models:\n  \"a\":\n    cmd: x\ngroups:\n  g1:\n    exclusive: true\n";
    let out = splice(config, BLOCK);
    assert!(!out.contains("exclusive"));
    assert!(out.contains("matrix:"));
}

#[test]
fn appends_when_no_anchor_present() {
    let config = "models:\n  \"a\":\n    cmd: x\n";
    let out = splice(config, BLOCK);
    assert!(out.starts_with("models:"));
    assert!(out.contains("\n\n# ==== GENERATED matrix block"));
    assert!(out.contains("aux: \"e\""));
}

#[test]
fn does_not_match_an_indented_matrix_key() {
    let config = "models:\n  \"a\":\n    matrix: something\n";
    let out = splice(config, BLOCK);
    assert!(out.contains("matrix: something"));
    assert!(out.trim_end().ends_with("aux: \"e\""));
}

fn small_plan() -> MatrixPlan {
    let models = vec![
        ModelFootprint {
            host_gb: None,
            cache_gb: 0,
            holds_cache: false,
            id: "embed".into(),
            model_type: ModelType::Embed,
            primary_file: Some("/e.gguf".into()),
            d_total: gb(7.0),
        },
        ModelFootprint {
            host_gb: None,
            cache_gb: 0,
            holds_cache: false,
            id: "chat".into(),
            model_type: ModelType::Llm,
            primary_file: Some("/c.gguf".into()),
            d_total: gb(30.0),
        },
    ];
    build(&BuildInput {
        host: None,
        models: &models,
        policy: &Policy::default(),
        baseline: gb(0.16),
        budget: gb(100.0),
    })
    .unwrap()
}

#[test]
fn renders_a_well_formed_block() {
    let plan = small_plan();
    let text = render(&plan);

    assert!(text.starts_with(MARKER));
    assert!(text.contains("\nmatrix:\n"));
    assert!(text.contains("  sets:"));
    assert!(text.contains("aux:"));
    assert!(text.ends_with('\n'));
    assert!(text.contains("  evict_costs:"));
    assert!(text.contains("[evict_costs]"));
    for (id, cost) in &plan.evict_costs {
        assert!(text.contains(&format!("    {id}: {cost}")), "{id} missing a cost line");
    }
    for set in &plan.sets {
        assert!(text.contains(&format!("{}: \"", set.name)));
    }
}

#[test]
fn a_splice_is_idempotent_and_reads_back() {
    let config = "models:\n  \"a\":\n    cmd: x\ngroups:\n  g1:\n    exclusive: true\n";
    let once = splice(config, BLOCK);
    assert_eq!(once, "models:\n  \"a\":\n    cmd: x\n\n# ==== GENERATED matrix block (llama-matrix) ====\nmatrix:\n  sets:\n    aux: \"e\"\n");
    assert_eq!(splice(&once, BLOCK), once);
    let other = "# ==== GENERATED matrix block (llama-matrix) ====\nmatrix:\n  sets: {}\n";
    assert_eq!(splice(&once, other), splice(config, other), "the last block is replaced");
    assert_eq!(existing_block(&once).as_deref(), Some(BLOCK));
    assert!(in_sync(existing_block(&once).as_ref(), BLOCK));
    assert!(!in_sync(existing_block(config).as_ref(), BLOCK));
    assert_eq!(existing_block("models:\n"), None);
    assert_eq!(splice("", BLOCK), BLOCK);
}

#[test]
fn drift_detects_missing_then_synced_block() {
    let plan = small_plan();
    let block = render(&plan);
    let config = "models:\n  \"chat\":\n    cmd: x\n";
    let before = Drift::between(config, &plan, &block);
    assert!(!before.has_block);
    assert!(!before.in_sync);
    assert_eq!(before.would_generate_sets, plan.sets.len());

    let after = Drift::between(&splice(config, &block), &plan, &block);
    assert!(after.has_block);
    assert!(after.in_sync);

    let edited = splice(config, &block).replace("chat & +aux", "chat");
    let drifted = Drift::between(&edited, &plan, &block);
    assert!(drifted.has_block);
    assert!(!drifted.in_sync);
}

#[test]
fn build_json_reports_counts() {
    let plan = small_plan();
    let preview = BuildPreview::of(&plan);
    assert_eq!(preview.packs, 1);
    assert_eq!(preview.heavies, 0);
    assert_eq!(preview.sets, 2);
    assert_eq!(preview.ceiling, gb(96.0) as i128);
    assert_eq!(preview.budget, gb(100.0));
    assert!(preview.excluded.is_empty());
    assert!(preview.host_over.is_empty());

    let result =
        ApplyResult { backup: "b".to_string(), verified: true, note: "n".to_string() };
    let applied = BuildApplied::of(&plan, &result);
    assert!(applied.applied && applied.verified);
    assert_eq!((applied.backup.as_str(), applied.note.as_str()), ("b", "n"));
    assert_eq!((applied.packs, applied.heavies, applied.sets), (1, 0, 2));
}

#[test]
fn only_a_service_that_died_is_rolled_back() {
    let backup = backup_path("config.yaml");
    assert_eq!(backup, "config.yaml.pre-matrix.bak");
    assert!(matches!(judge(&backup, Liveness::Silent), Verdict::RollBack));
    assert!(matches!(judge(&backup, Liveness::Answered(502)), Verdict::RollBack));
    match judge(&backup, Liveness::Answered(200)) {
        Verdict::Keep(result) => {
            assert!(result.verified);
            assert_eq!(result.backup, backup);
        }
        Verdict::RollBack => panic!("it is serving"),
    }
    match judge(&backup, Liveness::Unreachable) {
        Verdict::Keep(result) => {
            assert!(!result.verified);
            assert!(result.note.contains("unreachable"));
        }
        Verdict::RollBack => panic!("it was never seen"),
    }
    assert!(matches!(judge(&backup, Liveness::Unchecked), Verdict::Keep(_)));
}

#[test]
fn the_block_is_rendered_exactly() {
    let text = render(&small_plan());
    let sets: Vec<&str> = text.lines().skip_while(|line| !line.starts_with("  sets:")).collect();
    assert_eq!(
        sets,
        vec![
            "  sets:",
            "    aux: \"embed\"   # ride-along (7.0 GB)",
            "    pack1: \"chat & +aux\"   # 37.2 GB: chat",
        ]
    );
}
