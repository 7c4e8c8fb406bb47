//! The measurement store: which footprint a command is planned with.

use indexmap::IndexMap;
use llama_matrix::cache::{
    adoptable, file_safe, ids_of_files, stamp, version_is_newer, version_triple,
    AdditivityCheck, BoxMeta, LegacyFile, LegacyModel, Measurement, ModelStore, Store, BOX_FILE,
    WRITER_VERSION,
};
use llama_matrix::measure::store_measurement;
use llama_matrix::model::ModelRecord;

fn gb(amount: f64) -> i64 {
    (amount * 1_024_000_000.0).round() as i64
}

fn reading(status: &str, d_total: f64) -> Measurement {
    Measurement { status: status.to_string(), d_total: gb(d_total), ..Measurement::default() }
}

/// A file holding `entries` of `(hash, status, d_total)`.
fn store_with(model_type: &str, entries: &[(&str, &str, f64)]) -> ModelStore {
    let mut measurements = IndexMap::new();
    for (hash, status, d_total) in entries {
        measurements.insert((*hash).to_string(), reading(status, *d_total));
    }
    ModelStore {
        model_type: model_type.to_string(),
        file: Some("/m.gguf".into()),
        measurements,
    }
}

#[test]
fn round_trips_box_and_model() {
    let meta = BoxMeta {
        baseline: gb(0.16),
        detected_total: Some(gb(111.5)),
        date: Some("2026-01-01".into()),
        additivity_check: None,
        ..BoxMeta::default()
    }
    .stamped(None);
    assert_eq!(meta.detected_total, Some(gb(111.5)));
    assert_eq!(meta.written_by.as_deref(), Some(WRITER_VERSION));

    let mut file = store_with("llm", &[]);
    let mut entry = reading("ok", 49.0);
    entry.load_tenths = 420;
    file.measurements.insert("abc123".to_string(), entry);
    assert_eq!(file.select("abc123").unwrap().d_total, gb(49.0));

    let names = vec!["coder-70b.json".to_string(), BOX_FILE.to_string(), ".measure.lock".to_string()];
    assert_eq!(ids_of_files(&names), vec!["coder-70b".to_string()]);
}

#[test]
fn a_hash_miss_is_a_miss() {
    let one = store_with("llm", &[("hash-c8192", "ok", 7.0)]);
    assert!(one.select("hash-c8191").is_none());
    assert_eq!(one.select("hash-c8192").unwrap().d_total, gb(7.0));

    let two = store_with("llm", &[("hash-c262144", "ok", 24.61), ("hash-c524288", "ok", 28.26)]);
    assert!(two.select("hash-c393216").is_none());
    assert_eq!(two.select("hash-c262144").unwrap().d_total, gb(24.61));
    assert_eq!(two.select("hash-c524288").unwrap().d_total, gb(28.26));

    let failed = store_with("llm", &[("hash-bad", "FAILED", 0.0), ("hash-good", "ok", 12.0)]);
    assert!(failed.select("hash-bad").is_none());
}

#[test]
fn a_hand_set_proxy_entry_resolves_without_a_hash_match() {
    let proxy = store_with("tts-proxy", &[("manual-kokoro", "ok", 0.1)]);
    assert!(proxy.is_hand_set_proxy());
    assert_eq!(proxy.select("any-config-hash").unwrap().d_total, gb(0.1));

    let llm = store_with("llm", &[("manual-kokoro", "ok", 0.1)]);
    assert!(!llm.is_hand_set_proxy());
    assert!(llm.select("any-config-hash").is_none());

    let ambiguous = store_with("tts-proxy", &[("a", "ok", 0.1), ("b", "ok", 0.2)]);
    assert!(ambiguous.select("any-config-hash").is_none());
}

#[test]
fn an_unpopulated_pool_split_reads_as_unknown() {
    let mut zeroed = reading("ok", 28.26);
    zeroed.d_vram = Some(0);
    zeroed.d_gtt = Some(0);
    zeroed.abs_total = gb(28.43);
    zeroed.abs_vram = Some(0);
    zeroed.abs_gtt = Some(0);
    let mut real = reading("ok", 24.61);
    real.d_vram = Some(gb(24.07));
    real.d_gtt = Some(gb(0.54));
    real.abs_total = gb(24.77);
    real.abs_vram = Some(gb(24.23));
    real.abs_gtt = Some(gb(0.54));
    let mut file = store_with("llm", &[]);
    file.measurements.insert("zeroed".to_string(), zeroed);
    file.measurements.insert("real".to_string(), real);
    file.normalize_pool_split();

    let zeroed = file.select("zeroed").unwrap();
    assert_eq!(zeroed.d_vram, None, "0/0 against a 28.26 GB total is not a reading");
    assert_eq!(zeroed.d_gtt, None);
    assert_eq!(zeroed.abs_vram, None);
    assert_eq!(zeroed.d_total, gb(28.26), "the total is untouched");

    let real = file.select("real").unwrap();
    assert_eq!(real.d_vram, Some(gb(24.07)));
    assert_eq!(real.d_gtt, Some(gb(0.54)));
}

#[test]
fn a_legacy_entry_is_not_confirmed() {
    let mut file = store_with("image", &[]);
    let mut entry = reading("ok", 8.87);
    entry.abs_total = gb(9.03);
    entry.load_tenths = 120;
    file.measurements.insert("legacy".to_string(), entry);

    let legacy = file.select("legacy").unwrap();
    assert!(legacy.is_ok(), "it is still a recorded measurement");
    assert!(!legacy.is_confirmed(), "but nothing confirms the allocation finished");
    assert_eq!(legacy.allocation_confirmed, None);
    assert_eq!(legacy.weight_ratio(), None);
    assert!(!legacy.below_weight_floor());
}

#[test]
fn confirmed_readings_keep_their_evidence() {
    let mut confirmed = reading("ok", 16.10);
    confirmed.abs_total = gb(16.26);
    confirmed.load_tenths = 140;
    confirmed.allocation_confirmed = Some(true);
    confirmed.serving_verified = Some(false);
    confirmed.peak_total = Some(gb(17.40));
    confirmed.weights_gb = Some(gb(16.55));
    let mut file = store_with("image", &[("unknown", "ok", 8.87)]);
    file.measurements.insert("confirmed".to_string(), confirmed);

    let confirmed = file.select("confirmed").unwrap();
    assert!(confirmed.is_confirmed());
    assert_eq!(confirmed.peak_total, Some(gb(17.40)));
    assert_eq!(confirmed.serving_verified, Some(false));
    assert!(!confirmed.below_weight_floor());
    assert_eq!(file.select("unknown").unwrap().allocation_confirmed, None);
}

#[test]
fn the_weights_floor_flags_a_half_measured_load() {
    let mut under = reading("ok", 8.87);
    under.weights_gb = Some(gb(16.55));
    assert!(under.below_weight_floor());
    let (footprint, weights) = under.weight_ratio().unwrap();
    assert!((footprint as f64 / weights as f64 - 0.5359).abs() < 1e-3);

    for (footprint, weights) in [(21.04, 21.50), (6.30, 6.46)] {
        let mut fine = reading("ok", footprint);
        fine.weights_gb = Some(gb(weights));
        assert!(
            !fine.below_weight_floor(),
            "{footprint} of {weights} GB is normal partial residency, not a bad measure"
        );
    }
}

#[test]
fn version_stamp_is_monotonic_and_numeric() {
    assert!(version_is_newer("1.10.0", "1.9.0"));
    assert!(!version_is_newer("1.0.0", "1.0.0"));
    assert!(!version_is_newer("bogus", "1.0.0"));
    assert_eq!(version_triple("2.11.3"), (2, 11, 3));

    let fresh = BoxMeta::default().stamped(None);
    assert_eq!(fresh.written_by.as_deref(), Some(WRITER_VERSION));

    let newer = "999.0.0".to_string();
    let after = BoxMeta { baseline: gb(1.5), ..BoxMeta::default() }.stamped(Some(&newer));
    assert_eq!(after.written_by.as_deref(), Some("999.0.0"));
    assert_eq!(after.baseline, gb(1.5));
    assert_eq!(stamp(Some(&"0.0.1".to_string()), "0.1.0"), "0.1.0");
}

fn model(id: &str, store: ModelStore, flat: Option<Measurement>) -> LegacyModel {
    LegacyModel { id: id.to_string(), store, flat }
}

#[test]
fn flat_entries_are_filed_under_the_current_hash() {
    let record = ModelRecord::from_expanded("chat", "/app/llama-server -m /m.gguf -c 4096");
    let hash = record.param_hash.clone();
    let legacy = LegacyFile {
        baseline: 0,
        budget: None,
        date: None,
        models: vec![
            model("chat", store_with("llm", &[]), Some(reading("ok", 30.0))),
            model("gone", store_with("llm", &[]), Some(reading("ok", 9.0))),
            model("chat", store_with("llm", &[("g", "ok", 7.0)]), Some(reading("ok", 30.0))),
        ],
        additivity_check: None,
    };
    let store = Store::new("measurements");
    let (_, files) = store
        .migrate_legacy(&Vec::new(), Some(legacy), &vec![record])
        .expect("an empty store takes it over");
    assert_eq!(files[0].1.select(&hash).expect("re-keyed").d_total, gb(30.0));
    assert_eq!(files[1].1.measurements.len(), 0, "there is no command to file it under");
    assert!(files[2].1.select(&hash).is_none(), "a table is left as it is");
    assert_eq!(files[2].1.select("g").unwrap().d_total, gb(7.0));
}

#[test]
fn migrates_a_legacy_single_file() {
    let legacy = || LegacyFile {
        baseline: gb(0.16),
        budget: Some(gb(111.5)),
        date: Some("2026-01-01".into()),
        models: vec![
            model("embed", store_with("embed", &[("h", "ok", 7.0)]), None),
            model("chat", store_with("llm", &[("g", "ok", 30.0)]), None),
        ],
        additivity_check: Some(AdditivityCheck {
            combo: vec!["embed".to_string(), "chat".to_string()],
            predicted: gb(37.16),
            measured: gb(37.16),
            error: 0,
        }),
    };
    let store = Store::new("measurements");
    let (meta, files) =
        store.migrate_legacy(&Vec::new(), Some(legacy()), &Vec::new()).expect("an empty store takes it over");
    assert_eq!(files.len(), 2);
    assert_eq!(meta.baseline, gb(0.16));
    assert_eq!(meta.detected_total, Some(gb(111.5)));
    assert_eq!(meta.additivity_check.unwrap().predicted, gb(37.16));
    assert_eq!(files[0].0, "embed");
    assert_eq!(files[0].1.select("h").unwrap().d_total, gb(7.0));
    assert_eq!(files[1].1.select("g").unwrap().d_total, gb(30.0));

    let written: Vec<String> = std::iter::once(BOX_FILE.to_string())
        .chain(files.iter().map(|(id, _)| format!("{}.json", file_safe(id))))
        .collect();
    let ids = ids_of_files(&written);
    assert_eq!(ids, vec!["embed", "chat"]);
    assert!(store.migrate_legacy(&ids, Some(legacy()), &Vec::new()).is_none(), "a second run writes nothing");
    assert!(store.migrate_legacy(&Vec::new(), None, &Vec::new()).is_none(), "there is no old file");
}

#[test]
fn a_failure_never_overwrites_a_good_footprint() {
    let record = ModelRecord::from_expanded("chat", "/app/llama-server -m /m.gguf -c 4096");
    let mut good = reading("ok", 30.0);
    good.allocation_confirmed = Some(true);
    let file = store_measurement(None, &record, good).expect("nothing to protect");

    let refused = store_measurement(
        Some(store_with("llm", &[(&record.param_hash, "ok", 30.0)])),
        &record,
        reading("FAILED", 0.0),
    );
    assert!(refused.is_none());
    assert_eq!(file.select(&record.param_hash).expect("footprint kept").d_total, gb(30.0));

    let fresh = ModelRecord::from_expanded("other", "/app/llama-server -m /o.gguf -c 4096");
    let stored = store_measurement(None, &fresh, reading("FAILED", 0.0)).unwrap();
    assert_eq!(stored.measurements[&fresh.param_hash].status, "FAILED");
    assert_eq!(stored.model_type, "llm");
    assert_eq!(stored.file.as_deref(), Some("/o.gguf"));
}

#[test]
fn a_worse_reading_does_not_displace_a_better_one() {
    let record = ModelRecord::from_expanded("m", "/app/llama-server -m /m.gguf -c 4096");
    let taken = |d_total: f64, contended: Option<bool>| Measurement {
        status: "ok".into(),
        d_total: gb(d_total),
        allocation_confirmed: Some(true),
        contended,
        ..Measurement::default()
    };
    let held = |contended: Option<bool>| {
        store_measurement(None, &record, taken(16.12, contended)).expect("nothing to protect")
    };
    assert_eq!(held(Some(false)).measurements[&record.param_hash].d_total, gb(16.12));

    assert!(store_measurement(Some(held(Some(false))), &record, taken(22.64, Some(true))).is_none());
    assert!(store_measurement(Some(held(Some(false))), &record, reading("FAILED", 0.0)).is_none());

    let replaced =
        store_measurement(Some(held(None)), &record, taken(22.64, Some(true))).expect("unchecked");
    assert_eq!(replaced.measurements[&record.param_hash].d_total, gb(22.64));
}

#[test]
fn a_renamed_model_keeps_its_footprint() {
    let confirmed = |status: &str| {
        let mut entry = reading(status, 12.0);
        entry.allocation_confirmed = Some(true);
        let mut file = store_with("llm", &[]);
        file.measurements.insert("h".to_string(), entry);
        file
    };
    let live = vec!["new".to_string(), "kept".to_string()];
    let files = vec![("kept".to_string(), confirmed("ok")), ("old".to_string(), confirmed("ok"))];
    let (from, entry) = adoptable(&files, &live, "h").expect("an orphan has it");
    assert_eq!(from, "old");
    assert_eq!(entry.d_total, gb(12.0));
    assert!(adoptable(&files, &live, "g").is_none());
    assert!(adoptable(&vec![("old".to_string(), confirmed("FAILED"))], &live, "h").is_none());
    let unsure = vec![("old".to_string(), store_with("llm", &[("h", "ok", 12.0)]))];
    assert!(adoptable(&unsure, &live, "h").is_none(), "an unconfirmed reading is not adopted");
}

#[test]
fn files_are_named_after_ids() {
    assert_eq!(file_safe("org/model:q4"), "org_model:q4");
    let store = Store::new("measurements");
    assert_eq!(store.dir(), "measurements");
    assert_eq!(store.model_path("org/m"), "measurements/org_m.json");
    assert_eq!(store.box_path(), "measurements/_box.json");
}
