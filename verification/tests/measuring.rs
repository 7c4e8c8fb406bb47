//! The sweep: what is sampled, what is compared, and what is recorded.

use llama_matrix::cache::{BoxMeta, Measurement};
use llama_matrix::measure::{
    busy_message, lock_holder, never_ready, once_ready, once_triggered, outcome, unlisted,
    worklist, Context, Facts, Load, LoadStep, Remeasured, Sample, Sweep, Triage,
};
use llama_matrix::model::{ModelRecord, ModelType};
use llama_matrix::platform::{
    macos_available, parse_counter, parse_in_use, parse_meminfo, units_of_bytes, used_of,
    AmdSysfs, AppleSilicon, HostMemory, NvidiaSmi,
};
use llama_matrix::plan::{EmittedSet, MatrixPlan};
use llama_matrix::policy::Policy;
use llama_matrix::probe::{
    multipart_wav, tiny_wav, trigger_body, weight_paths, weights_gb,
};
use llama_matrix::sampling::{
    await_allocation, clear_step, note_floor, ready_step, resident_ids, round2, stabilize, within,
    Allocation, AwaitStep, ClearStep, ClearedPool, ReadyStep, Stabilized, TriggerEvent,
    STABILIZE_EPS,
};
use llama_matrix::serving::{
    check_serving, compare_commands, compare_context, declared_context, needs_props,
    parse_running, served_context, served_ids, token_difference, Running, Serving,
};
use llama_matrix::validate::{assess, choose_set, record_check, ValidateError};

fn gb(amount: f64) -> i64 {
    (amount * 1_024_000_000.0).round() as i64
}

fn amounts(readings: &[f64]) -> Vec<i64> {
    readings.iter().map(|reading| gb(*reading)).collect()
}

// ---- sampling -----------------------------------------------------------------------------

#[test]
fn stabilize_reports_whether_it_actually_settled() {
    let climbing: Vec<i64> = (1..=20).map(|step| gb(4.0 * f64::from(step))).collect();
    let result = stabilize(&climbing, gb(0.03), 3);
    assert!(!result.settled, "a moving reading must not be reported as settled");
    assert!(result.peak >= gb(13.0), "peak {} should track the climb", result.peak);
    assert_eq!(result.used, gb(80.0));

    let mut script = vec![4.0, 16.10, 16.11, 16.10, 16.10];
    script.push(16.10);
    let result = stabilize(&amounts(&script), gb(0.03), 3);
    assert!(result.settled);
    assert_eq!(result.used, gb(16.10));

    let result = stabilize(&amounts(&[8.87, 8.87, 8.87, 8.87, 8.87]), gb(0.03), 3);
    assert!(result.settled && result.used == gb(8.87));
    assert_eq!(STABILIZE_EPS, gb(0.03));

    // Holding for none is holding for one: the first quiet reading settles it.
    for hold in [0, 1] {
        let result = stabilize(&amounts(&[4.0, 8.0, 8.0, 9.0]), gb(0.03), hold);
        assert!(result.settled && result.used == gb(8.0));
    }
    let result = stabilize(&amounts(&[4.0, 8.0, 9.0]), gb(0.03), 0);
    assert!(!result.settled && result.used == gb(9.0));
    assert!(!stabilize(&amounts(&[8.0, 8.0, 8.0]), gb(0.03), u32::MAX).settled);
}

#[test]
fn a_finished_trigger_confirms_and_a_stalled_one_does_not() {
    let reading = gb(2.0);
    assert!(matches!(
        await_allocation(0, reading, TriggerEvent::Answered(200), 5),
        AwaitStep::Done(Allocation::Confirmed { .. })
    ));

    match await_allocation(0, reading, TriggerEvent::Answered(500), 5) {
        AwaitStep::Done(Allocation::Rejected { reason }) => {
            assert!(reason.contains("500"), "{reason}")
        }
        other => panic!("expected Rejected, got {other:?}"),
    }

    assert!(matches!(
        await_allocation(0, reading, TriggerEvent::Failed("connection reset".into()), 5),
        AwaitStep::Done(Allocation::Rejected { .. })
    ));

    // Never answers inside the budget: unconfirmed, carrying the peak seen while waiting.
    let mut peak = 0;
    for reading in [1.0, 9.0] {
        match await_allocation(peak, gb(reading), TriggerEvent::Pending { expired: false }, 1) {
            AwaitStep::Wait { peak: seen } => peak = seen,
            other => panic!("expected Wait, got {other:?}"),
        }
    }
    match await_allocation(peak, gb(3.0), TriggerEvent::Pending { expired: true }, 1) {
        AwaitStep::Done(Allocation::Unconfirmed { peak, reason }) => {
            assert_eq!(peak, gb(9.0));
            assert!(reason.contains("mid-load plateau"), "{reason}");
            assert!(reason.contains("after it was fired"), "{reason}");
        }
        other => panic!("expected Unconfirmed, got {other:?}"),
    }
    assert!(matches!(
        await_allocation(0, reading, TriggerEvent::Lost, 5),
        AwaitStep::Done(Allocation::Unconfirmed { .. })
    ));
}

#[test]
fn readings_are_kept_to_hundredths() {
    assert_eq!(round2(gb(16.124) as i128), gb(16.12));
    assert_eq!(round2(gb(16.126) as i128), gb(16.13));
    assert_eq!(round2(-(gb(0.126) as i128)), -gb(0.13));
    assert_eq!(round2(gb(16.12) as i128), gb(16.12));
}

#[test]
fn only_an_empty_pool_lowers_the_floor() {
    let mut floor = None;
    let mut host_floor = None;
    let pool = |used: f64, residents: &[&str], host: Option<f64>| ClearedPool {
        used: gb(used),
        residents: residents.iter().map(|id| id.to_string()).collect(),
        host: host.map(|used| HostMemory { total_gb: gb(32.0), used_gb: gb(used) }),
    };
    note_floor(&mut floor, &mut host_floor, &pool(0.1, &["other"], Some(1.0)));
    assert_eq!((floor, host_floor), (None, None));
    note_floor(&mut floor, &mut host_floor, &pool(0.5, &[], None));
    note_floor(&mut floor, &mut host_floor, &pool(0.2, &[], Some(4.0)));
    note_floor(&mut floor, &mut host_floor, &pool(0.9, &[], Some(5.0)));
    assert_eq!((floor, host_floor), (Some(gb(0.2)), Some(gb(4.0))));
}

// ---- serving ------------------------------------------------------------------------------

#[test]
fn declared_context_reads_c_and_np() {
    let cmd = "/app/llama-server -m /m.gguf -ngl 99 -c 524288 -np 2 -fa on";
    assert_eq!(declared_context(cmd), Some((524288, Some(2))));
    assert_eq!(
        declared_context("/app/llama-server -m /m.gguf --ctx-size 4096 --parallel 4"),
        Some((4096, Some(4)))
    );
    assert_eq!(declared_context("/app/llama-server -m /m.gguf -c 8192"), Some((8192, None)));
    assert_eq!(declared_context("/app/llama-server -m /m.gguf -ngl 99"), None);
    assert_eq!(declared_context("/app/llama-server -m /m.gguf -c 0 -fa on"), None);
}

#[test]
fn a_served_context_that_differs_is_a_mismatch() {
    assert_eq!(compare_context((262144, Some(2)), (131072, 2)), Serving::Confirmed);
    assert_eq!(compare_context((8192, None), (8192, 4)), Serving::Confirmed);
    assert_eq!(
        compare_context((393216, Some(2)), (262144, 2)),
        Serving::Mismatch {
            detail: "this config declares `-c 393216 -np 2` but the loaded server reports \
                     262144 per slot across 2 slot(s)"
                .into(),
        }
    );
    assert_eq!(
        compare_context((8191, None), (8192, 4)),
        Serving::Mismatch {
            detail: "this config declares `-c 8191` but the loaded server reports 8192 per \
                     slot across 4 slot(s)"
                .into(),
        }
    );
    assert_eq!(
        compare_context((524288, Some(2)), (131072, 4)),
        Serving::Mismatch {
            detail: "this config declares `-c 524288 -np 2` but the loaded server reports \
                     131072 per slot across 4 slot(s)"
                .into(),
        }
    );
    assert_eq!(compare_context((8191, Some(2)), (4095, 2)), Serving::Confirmed);
}

fn entry_for<'a>(entries: &'a [(String, Running)], model: &str) -> &'a Running {
    &entries.iter().find(|(id, _)| id == model).expect("it is running").1
}

#[test]
fn running_carries_the_launched_command() {
    let body = r#"{"running":[{"model":"embed","state":"ready",
        "cmd":"/app/llama-server -m /m.gguf --port 9050 -c 8192\n"}]}"#;
    let entries = parse_running(body);
    assert_eq!(entry_for(&entries, "embed").state, "ready");
    assert_eq!(
        entry_for(&entries, "embed").cmd.as_deref(),
        Some("/app/llama-server -m /m.gguf --port 9050 -c 8192\n")
    );

    let older = parse_running(r#"{"running":[{"model":"embed","state":"ready"}]}"#);
    assert_eq!(entry_for(&older, "embed").cmd, None);
    let blank = parse_running(r#"{"running":[{"model":"embed","state":"ready","cmd":"  "}]}"#);
    assert_eq!(entry_for(&blank, "embed").cmd, None);
    assert!(parse_running("not json").is_empty());
    assert!(parse_running(r#"{"running":{}}"#).is_empty());
}

#[test]
fn a_served_command_is_compared_on_its_memory_tokens() {
    let declared = "/app/llama-server -m /m.gguf --host 127.0.0.1 --port 9050 -ngl 99 \
                    -c 8192 -fa on --jinja";
    let served = "/app/llama-server -m /m.gguf --host 127.0.0.1 --port 9111 -ngl 99\n \
                  -c 8192 -fa on --jinja";
    assert_eq!(compare_commands(declared, served), Serving::Confirmed);

    let restretched = declared.replace("-c 8192", "-c 262144");
    let Serving::Mismatch { detail } = compare_commands(declared, &restretched) else {
        panic!("a changed -c must be a mismatch");
    };
    assert!(detail.contains("`-c 8192`"), "{detail}");
    assert!(detail.contains("`-c 262144`"), "{detail}");

    assert_eq!(
        compare_commands(
            "/app/llama-server -m /m.gguf -c ${CTX}",
            "/app/llama-server -m /m.gguf -c 8192"
        ),
        Serving::Unconfirmed
    );
}

#[test]
fn without_a_served_command_the_props_path_still_decides() {
    let sd = ModelRecord::from_expanded(
        "z-image",
        "/opt/sdcpp/bin/sd-server --diffusion-model /sd/u.gguf --steps 8",
    );
    assert_eq!(check_serving(&sd, Some(&sd.cmd.clone()), None), Serving::Confirmed);
    assert_eq!(check_serving(&sd, None, None), Serving::Unconfirmed);
    assert!(!needs_props(&sd, None), "an image server has none to ask");

    let chat = ModelRecord::from_expanded("chat", "/app/llama-server -m /m.gguf -c 8192");
    assert!(needs_props(&chat, None));
    assert_eq!(check_serving(&chat, None, Some((8192, 4))), Serving::Confirmed);
    assert!(matches!(check_serving(&chat, None, Some((4096, 1))), Serving::Mismatch { .. }));
    assert_eq!(check_serving(&chat, None, None), Serving::Unconfirmed);
}

#[test]
fn answers_are_read() {
    assert_eq!(
        served_ids(r#"{"data":[{"id":"a"},{"object":"x"},{"id":"b"}]}"#),
        Some(vec!["a".to_string(), "b".to_string()])
    );
    assert_eq!(served_ids(r#"{"models":[]}"#), None);
    assert_eq!(
        served_context(r#"{"total_slots":2,"default_generation_settings":{"n_ctx":131072}}"#),
        Some((131072, 2))
    );
    assert_eq!(served_context(r#"{"n_ctx":8192}"#), Some((8192, 1)));
    assert_eq!(served_context(r#"{"total_slots":2}"#), None);
    assert_eq!(token_difference("a -c 1 -x", "a -c 2 -x"), "-c 1");
}

#[test]
fn foreign_residents_names_everything_but_the_model_under_test() {
    let entries = parse_running(
        r#"{"running":[{"model":"under-test","state":"ready"},
                       {"model":"rag-embed","state":"ready"},
                       {"model":"aux-tts","state":"starting"}]}"#,
    );
    assert_eq!(
        resident_ids(&entries, "under-test"),
        vec!["aux-tts".to_string(), "rag-embed".to_string()]
    );
    assert_eq!(ready_step(&entries, "under-test").0, ReadyStep::Ready);
    assert_eq!(ready_step(&entries, "aux-tts").0, ReadyStep::Wait);
    assert_eq!(ready_step(&entries, "nobody").0, ReadyStep::Wait);
    let stopping = parse_running(r#"{"running":[{"model":"m","state":"stopping"}]}"#);
    assert_eq!(ready_step(&stopping, "m").0, ReadyStep::GaveUp);
}

// ---- the sweep ----------------------------------------------------------------------------

#[test]
fn a_remeasure_disagrees_only_outside_the_tolerance() {
    assert!(!Remeasured::disagree(gb(1.80), gb(1.82)));
    assert!(Remeasured::disagree(gb(1.80), gb(2.20)));
    assert!(!Remeasured::disagree(gb(80.00), gb(81.00)));
    assert!(Remeasured::disagree(gb(80.00), gb(82.00)));
    assert!(Remeasured::disagree(gb(32.16), gb(38.68)));
}

fn chat() -> ModelRecord {
    ModelRecord::from_expanded("chat", "/app/llama-server -m /m.gguf -c 4096")
}

fn cleared(used: f64, residents: &[&str]) -> ClearedPool {
    ClearedPool {
        used: gb(used),
        residents: residents.iter().map(|id| id.to_string()).collect(),
        host: Some(HostMemory { total_gb: gb(32.0), used_gb: gb(4.0) }),
    }
}

fn context(weights: Option<f64>) -> Context {
    Context { stored: None, weights: weights.map(gb), today: "2026-01-01".to_string() }
}

fn sample(used: f64, residents: &[&str]) -> Sample {
    Sample {
        load_tenths: 123,
        serving_verified: true,
        trigger_peak: gb(31.0),
        trigger_note: None,
        settled: Stabilized { used: gb(used), settled: true, peak: gb(used) },
        residents: residents.iter().map(|id| id.to_string()).collect(),
        split: Some((gb(30.0), gb(0.5))),
        host: Some(gb(5.0)),
    }
}

#[test]
fn a_clean_load_is_recorded_as_its_delta() {
    let mut sweep = Sweep::open(gb(96.0), &cleared(0.16, &[]));
    let window = sweep.open_window(cleared(0.16, &[]), Some((gb(0.1), gb(0.06))));
    assert!(window.contention.is_empty());
    let recorded = sweep
        .judge(&chat(), &context(Some(28.0)), &window, Load::Sampled(sample(30.5, &[])))
        .expect("a footprint");
    assert_eq!(recorded.status, "ok");
    assert_eq!(recorded.d_total, gb(30.34));
    assert_eq!(recorded.abs_total, gb(30.5));
    assert_eq!((recorded.d_vram, recorded.d_gtt), (Some(gb(29.9)), Some(gb(0.44))));
    assert_eq!(recorded.peak_total, Some(gb(30.84)));
    assert_eq!(recorded.d_host, Some(gb(1.0)));
    assert_eq!(recorded.pool_baseline, Some(gb(0.16)));
    assert_eq!(recorded.allocation_confirmed, Some(true));
    assert_eq!(recorded.contended, Some(false));
    assert_eq!(recorded.params, "/app/llama-server -m /m.gguf -c 4096");
    assert_eq!(outcome(Some(&recorded), false), "30.34 GB in 12.3 s");
    assert_eq!(sweep.summary.measured, vec!["chat".to_string()]);

    let meta = sweep.close(&cleared(0.12, &[]), gb(1.0), "2026-01-01");
    assert_eq!(meta.baseline, gb(0.12));
    assert_eq!(meta.detected_total, Some(gb(96.0)));
    assert_eq!(meta.host_baseline, Some(gb(4.0)));
    assert_eq!(sweep.summary.baseline_was, Some(gb(1.0)), "the empty pool moved");
    assert!(!sweep.summary.no_empty_pool);
}

#[test]
fn a_load_with_company_is_flagged_and_a_short_one_refused() {
    let mut sweep = Sweep::open(gb(96.0), &cleared(0.16, &[]));
    // Something arrived during the window: too high, so flagged.
    let window = sweep.open_window(cleared(0.16, &[]), None);
    let recorded = sweep
        .judge(&chat(), &context(None), &window, Load::Sampled(sample(30.5, &["embed"])))
        .expect("a footprint");
    assert_eq!(recorded.contended, Some(true));
    assert_eq!(sweep.summary.contended[0].id, "chat");
    assert_eq!(outcome(Some(&recorded), true), "30.34 GB in 12.3 s (contended), not stored (the better reading already on record is kept)");
    // Something left it: the delta would be short, so there is none.
    let window = sweep.open_window(cleared(6.7, &["embed"]), None);
    assert_eq!(window.contention.len(), 1);
    let none = sweep.judge(&chat(), &context(None), &window, Load::Sampled(sample(30.5, &[])));
    assert!(none.is_none());
    assert!(sweep.summary.failed[0].reason.contains("SHORT"));
    // Memory above the floor that nobody accounts for shows too.
    let window = sweep.open_window(cleared(2.0, &[]), None);
    assert!(window.contention[0].contains("1.84 GB above the empty-pool floor"));
}

fn confirmed(d_total: f64) -> Measurement {
    Measurement {
        status: "ok".to_string(),
        d_total: gb(d_total),
        allocation_confirmed: Some(true),
        ..Measurement::default()
    }
}

#[test]
fn every_model_of_a_sweep_has_one_ending() {
    let named = |id: &str| ModelRecord::from_expanded(id, "/app/llama-server -m /m.gguf -c 4096");
    let facts = |weights_missing: bool, stored: Option<Measurement>, orphan: bool| Facts {
        weights_missing,
        stored,
        orphan: if orphan { Some(("old".to_string(), confirmed(12.0))) } else { None },
    };
    let mut sweep = Sweep::open(gb(96.0), &cleared(0.16, &[]));
    let visits = [
        ("gone", facts(true, None, false)),
        ("known", facts(false, Some(confirmed(9.0)), false)),
        ("renamed", facts(false, None, true)),
        ("fresh", facts(false, None, false)),
        ("broken", facts(false, None, false)),
    ];
    for (id, known) in visits {
        let record = named(id);
        if let Triage::Load = sweep.triage(&record, known, false) {
            let window = sweep.open_window(cleared(0.16, &[]), None);
            let load = if id == "fresh" {
                Load::Sampled(sample(30.5, &[]))
            } else {
                Load::NotReady { unlisted: false, note: None }
            };
            sweep.judge(&record, &context(None), &window, load);
        }
    }
    sweep.close(&cleared(0.16, &[]), 0, "2026-01-01");
    let ended = &sweep.summary;
    assert_eq!(ended.skipped_missing, vec!["gone"]);
    assert_eq!(ended.cached, vec!["known"]);
    assert_eq!(ended.adopted.iter().map(|a| a.id.as_str()).collect::<Vec<_>>(), vec!["renamed"]);
    assert_eq!(ended.measured, vec!["fresh"]);
    assert_eq!(ended.failed.iter().map(|f| f.id.as_str()).collect::<Vec<_>>(), vec!["broken"]);
}

#[test]
fn a_load_goes_on_by_what_is_seen_of_it() {
    let ids = vec!["chat".to_string()];
    assert!(!unlisted(Some(&ids), "chat"));
    assert!(unlisted(Some(&ids), "embed"));
    assert!(!unlisted(None, "embed"));

    let rejected = || Allocation::Rejected { reason: "HTTP 400".to_string() };
    assert!(matches!(
        never_ready(rejected(), true),
        Load::NotReady { unlisted: true, note: Some(note) } if note == "HTTP 400"
    ));
    assert!(matches!(
        never_ready(Allocation::Confirmed { peak: 1 }, false),
        Load::NotReady { unlisted: false, note: None }
    ));
    assert!(matches!(
        once_ready(Serving::Mismatch { detail: "other".to_string() }),
        LoadStep::Finished(Load::Mismatch { detail }) if detail == "other"
    ));
    assert!(matches!(
        once_ready(Serving::Confirmed),
        LoadStep::AwaitTrigger { serving_verified: true }
    ));
    assert!(matches!(
        once_ready(Serving::Unconfirmed),
        LoadStep::AwaitTrigger { serving_verified: false }
    ));
    assert!(matches!(
        once_triggered(rejected(), true),
        LoadStep::Finished(Load::Rejected { serving_verified: true, .. })
    ));
    assert!(matches!(
        once_triggered(Allocation::Confirmed { peak: 7 }, false),
        LoadStep::Sample { serving_verified: false, trigger_peak: 7, trigger_note: None }
    ));
    let late = Allocation::Unconfirmed { peak: 8, reason: "late".to_string() };
    assert!(matches!(
        once_triggered(late, true),
        LoadStep::Sample { trigger_peak: 8, trigger_note: Some(note), .. } if note == "late"
    ));

    assert_eq!(clear_step(&Vec::new(), 20), ClearStep::Empty);
    assert_eq!(clear_step(&ids, 19), ClearStep::Wait);
    assert_eq!(clear_step(&ids, 20), ClearStep::GaveUp);
    assert!(within(899_999, 900) && !within(900_000, 900));
}

#[test]
fn failures_are_recorded_with_their_reason() {
    let mut sweep = Sweep::open(gb(96.0), &cleared(0.16, &[]));
    let window = sweep.open_window(cleared(0.16, &[]), None);
    let failed = sweep
        .judge(
            &chat(),
            &context(None),
            &window,
            Load::NotReady { unlisted: true, note: Some("HTTP 502".to_string()) },
        )
        .unwrap();
    assert_eq!(failed.status, "FAILED");
    assert_eq!(outcome(Some(&failed), false), "FAILED");
    assert!(sweep.summary.failed[0].reason.ends_with("(HTTP 502)"));
    assert!(sweep.summary.failed[0].reason.contains("does not list this model"));

    let none = sweep.judge(
        &chat(),
        &context(None),
        &window,
        Load::Mismatch { detail: "d".to_string() },
    );
    assert!(none.is_none());
    assert_eq!(outcome(None, false), "nothing recorded");

    let rejected = sweep
        .judge(
            &chat(),
            &context(None),
            &window,
            Load::Rejected { reason: "HTTP 500".to_string(), serving_verified: false },
        )
        .unwrap();
    assert_eq!(rejected.serving_verified, Some(false));
    assert_eq!(sweep.summary.failed[2].reason, "HTTP 500, so no footprint was recorded");
    assert_eq!(sweep.summary.unverified_serving, vec!["chat".to_string()]);
}

#[test]
fn an_unfinished_or_small_reading_says_so() {
    let mut sweep = Sweep::open(gb(96.0), &cleared(0.16, &[]));
    let window = sweep.open_window(cleared(0.16, &[]), None);
    let mut moving = sample(9.03, &[]);
    moving.settled.settled = false;
    let mut previous = Measurement::default();
    previous.status = "ok".to_string();
    previous.d_total = gb(16.0);
    previous.measured_at = "2025-12-31".to_string();
    let with_stored = Context {
        stored: Some(previous),
        weights: Some(gb(16.55)),
        today: "2026-01-01".to_string(),
    };
    let recorded =
        sweep.judge(&chat(), &with_stored, &window, Load::Sampled(moving)).expect("recorded");
    assert!(!recorded.is_confirmed());
    assert_eq!(
        sweep.summary.unconfirmed_allocation[0].reason,
        "occupancy was still changing after 30s of sampling, so the footprint may be incomplete"
    );
    assert!(sweep.summary.below_weight_floor[0].reason.contains("only 54% of the 16.55 GB"));
    assert_eq!(sweep.summary.changed[0].previous, gb(16.0));
    assert_eq!(sweep.summary.changed[0].current, gb(8.87));
}

#[test]
fn what_is_stored_and_confirmed_is_not_loaded_again() {
    let mut sweep = Sweep::open(gb(96.0), &cleared(0.16, &[]));
    let facts = |confirmed: Option<bool>| Facts {
        weights_missing: false,
        stored: Some(Measurement {
            status: "ok".to_string(),
            d_total: gb(30.0),
            allocation_confirmed: confirmed,
            ..Measurement::default()
        }),
        orphan: None,
    };
    let cached = sweep.triage(&chat(), facts(Some(true)), false);
    assert!(matches!(cached, Triage::Cached { .. }));
    assert_eq!(cached.outcome().as_deref(), Some("cached, 30.00 GB"));
    assert!(matches!(sweep.triage(&chat(), facts(None), false), Triage::Load));
    assert!(matches!(sweep.triage(&chat(), facts(Some(true)), true), Triage::Load));

    let missing = Facts { weights_missing: true, stored: None, orphan: None };
    assert_eq!(
        sweep.triage(&chat(), missing, false).outcome().as_deref(),
        Some("skipped, weight file missing")
    );
    let orphan = Facts {
        weights_missing: false,
        stored: None,
        orphan: Some((
            "old".to_string(),
            Measurement {
                status: "ok".to_string(),
                d_total: gb(12.0),
                ..Measurement::default()
            },
        )),
    };
    let adopted = sweep.triage(&chat(), orphan, false);
    assert_eq!(adopted.outcome().as_deref(), Some("adopted 12.00 GB from `old` (renamed)"));
    assert_eq!(sweep.summary.cached, vec!["chat".to_string()]);
    assert_eq!(sweep.summary.skipped_missing, vec!["chat".to_string()]);
    assert_eq!(sweep.summary.adopted[0].from, "old");
}

#[test]
fn a_box_that_never_emptied_keeps_its_baseline() {
    let mut sweep = Sweep::open(gb(96.0), &cleared(9.0, &["other"]));
    let meta = sweep.close(&cleared(9.0, &["other"]), gb(0.16), "2026-01-01");
    assert!(sweep.summary.no_empty_pool);
    assert_eq!(meta.baseline, gb(0.16));
    assert_eq!(sweep.summary.baseline_was, None);
}

#[test]
fn the_worklist_leaves_proxies_and_others_out() {
    let records = vec![
        chat(),
        ModelRecord::from_expanded("tts-1", "sleep infinity"),
        ModelRecord::from_expanded("embed", "/app/llama-server -m /e.gguf --embedding"),
    ];
    assert_eq!(worklist(&records, &None), vec![0, 2]);
    assert_eq!(worklist(&records, &Some(vec!["embed".to_string(), "tts-1".to_string()])), vec![2]);
}

#[test]
fn a_lock_names_the_process_that_holds_it() {
    assert_eq!(lock_holder("4711\n"), Some(4711));
    assert_eq!(lock_holder("2147483646"), Some(2147483646));
    assert_eq!(lock_holder("2147483648"), None);
    assert_eq!(lock_holder("0"), None);
    assert_eq!(lock_holder("-1"), None);
    assert_eq!(lock_holder("nobody"), None);
    assert_eq!(
        busy_message(4711, "m/.measure.lock"),
        "a sweep is already running (pid 4711); wait for it to finish, or remove m/.measure.lock if it is stale"
    );
}

// ---- probes -------------------------------------------------------------------------------

#[test]
fn wav_has_a_valid_riff_header() {
    let wav = tiny_wav();
    assert_eq!(&wav[0..4], b"RIFF");
    assert_eq!(&wav[8..12], b"WAVE");
    assert_eq!(wav.len(), 44 + 9600);
    // 36 + 9600, and 16 kHz, little end first.
    assert_eq!(&wav[4..8], &[0xa4, 0x25, 0, 0]);
    assert_eq!(&wav[24..28], &[0x80, 0x3e, 0, 0]);
    assert!(wav[44..].iter().all(|byte| *byte == 0));
}

#[test]
fn multipart_contains_model_and_file_parts() {
    let body = multipart_wav("whisper-1", "B");
    let text = String::from_utf8_lossy(&body);
    assert!(text.contains("name=\"model\""));
    assert!(text.contains("whisper-1"));
    assert!(text.contains("filename=\"a.wav\""));
    assert!(text.trim_end().ends_with("--B--"));
}

#[test]
fn every_type_has_its_trigger() {
    assert_eq!(
        trigger_body(ModelType::Embed, "\"e1\"", "\"\""),
        r#"{"input":"x","model":"e1"}"#
    );
    let embed = llama_matrix::probe::trigger("e\"1", ModelType::Embed, "");
    assert_eq!(embed.path, "/v1/embeddings");
    assert_eq!(String::from_utf8(embed.body).unwrap(), r#"{"input":"x","model":"e\"1"}"#);
    let odd = llama_matrix::probe::trigger("\\\n\t\r\u{8}\u{c}\u{1}\u{7f}é", ModelType::Embed, "");
    assert_eq!(
        String::from_utf8(odd.body).unwrap(),
        "{\"input\":\"x\",\"model\":\"\\\\\\n\\t\\r\\b\\f\\u0001\u{7f}é\"}"
    );
    let chat = llama_matrix::probe::trigger("m", ModelType::Llm, "1024x1024");
    assert_eq!(chat.path, "/v1/chat/completions");
    assert_eq!(chat.content_type, "application/json");
    assert_eq!(
        String::from_utf8(chat.body).unwrap(),
        r#"{"max_tokens":1,"messages":[{"content":"hi","role":"user"}],"model":"m"}"#
    );
    let image = llama_matrix::probe::trigger("m", ModelType::Image, "512x512");
    assert_eq!(image.path, "/v1/images/generations");
    assert!(String::from_utf8(image.body).unwrap().contains(r#""size":"512x512""#));
    assert_eq!(llama_matrix::probe::trigger("m", ModelType::Rerank, "").path, "/v1/rerank");
    let stt = llama_matrix::probe::trigger("m", ModelType::Stt, "");
    assert_eq!(stt.path, "/v1/audio/transcriptions");
    assert_eq!(stt.content_type, "multipart/form-data; boundary=----llamamatrixboundary");
}

#[test]
fn weights_are_totalled_across_host_mapped_files() {
    let mut policy = Policy::default();
    policy.paths.insert("/sd".to_string(), "/srv/sd".to_string());
    let record = ModelRecord::from_expanded(
        "img",
        "/opt/sdcpp/bin/sd-server --diffusion-model /sd/unet.gguf \
         --vae /sd/vae.safetensors --t5xxl /sd/absent.safetensors",
    );
    assert_eq!(
        weight_paths(&record, &policy),
        vec!["/srv/sd/unet.gguf", "/srv/sd/vae.safetensors", "/srv/sd/absent.safetensors"]
    );
    // 4 MiB readable; the missing file contributes nothing rather than aborting.
    let sizes = vec![Some(3 * 1024 * 1024), Some(1024 * 1024), None];
    assert_eq!(weights_gb(&sizes), Some(gb(4.0 / 1024.0)));
    assert_eq!(weights_gb(&vec![None]), None);
}

// ---- sensors ------------------------------------------------------------------------------

#[test]
fn amd_sysfs_sums_vram_and_gtt() {
    let amd = AmdSysfs::at("/sys/class/drm/card0/device");
    assert_eq!(
        amd.counter_path("mem_info_vram_total"),
        "/sys/class/drm/card0/device/mem_info_vram_total"
    );
    let counter = |gib: u64| parse_counter(&format!("{}\n", gib * 1_073_741_824)).unwrap();
    assert_eq!(AmdSysfs::pooled(counter(96), Some(counter(16))), gb(112.0));
    assert_eq!(AmdSysfs::pooled(counter(10), Some(counter(1))), gb(11.0));
    let (vram, gtt) = AmdSysfs::split(counter(10), Some(counter(1)));
    assert_eq!((vram, gtt), (gb(10.0), gb(1.0)));
    assert_eq!(vram + gtt, AmdSysfs::pooled(counter(10), Some(counter(1))));
    assert_eq!(parse_counter("n/a"), None);

    let found = AmdSysfs::detect(&vec![false, true, true]).expect("the second card");
    assert_eq!(found.device_dir, AmdSysfs::candidate(1));
    assert!(AmdSysfs::detect(&vec![false, false]).is_none());
}

#[test]
fn apple_silicon_picks_the_exact_counter() {
    let sample = r#""In use system memory (driver)"=0,"Alloc system memory"=10098065408,"In use system memory"=5449367552}"#;
    assert_eq!(parse_in_use(sample), Some(5_449_367_552));
    assert_eq!(parse_in_use("nothing here"), None);
    let apple = AppleSilicon::detect(Some(1), Some(&"Apple M3".to_string())).expect("a chip");
    assert_eq!(apple.label(), "Apple M3 (Metal unified memory)");
    assert!(AppleSilicon::detect(None, Some(&"Apple M3".to_string())).is_none());
}

#[test]
fn other_sensors_are_read() {
    assert_eq!(NvidiaSmi::sum_units("24576\n 24576 \n"), gb(48.0));
    assert_eq!(units_of_bytes(1_073_741_824), gb(1.0));
    let host = parse_meminfo("MemTotal:       33554432 kB\nMemFree: 1 kB\nMemAvailable:   8388608 kB\n")
        .expect("both fields");
    assert_eq!((host.total_gb, host.used_gb), (gb(32.0), gb(24.0)));
    assert!(parse_meminfo("MemTotal: 1 kB\n").is_none());
    let host = parse_meminfo("MemTotal: 33554432.0 kB\nMemAvailable: 8.388608e6 kB\n")
        .expect("both fields");
    assert_eq!((host.total_gb, host.used_gb), (gb(32.0), gb(24.0)));
    let host = parse_meminfo("MemTotal: 1.5 kB\nMemAvailable: -0.5 kB\n").expect("both fields");
    assert_eq!((host.total_gb, host.used_gb), (1_465, 1_953));
    assert!(parse_meminfo("MemTotal: 1 kB\nMemAvailable: few kB\n").is_none());
    assert_eq!(NvidiaSmi::sum_units("2.4576e4\n[N/A]\n"), gb(24.0));
    assert_eq!(used_of(gb(32.0), gb(40.0)).used_gb, 0);
    let vm = "Mach Virtual Memory Statistics: (page size of 16384 bytes)\n\
              Pages free:                               65536.\n\
              Pages active:                            100000.\n\
              Pages inactive:                           65536.\n";
    assert!(macos_available(vm).expect("pages") >= gb(1.0));
}

// ---- validation ---------------------------------------------------------------------------

fn declared(sets: &[(&str, &str, f64)]) -> MatrixPlan {
    MatrixPlan {
        vars: Vec::new(),
        evict_costs: Vec::new(),
        sets: sets
            .iter()
            .map(|(name, expr, footprint)| EmittedSet {
                name: name.to_string(),
                expr: expr.to_string(),
                comment: String::new(),
                footprint: gb(*footprint) as i128,
                host_footprint: None,
                fanout: 1,
                models: 1,
                caches: 0,
            })
            .collect(),
        warnings: Vec::new(),
        excluded: Vec::new(),
        unconfirmed: Vec::new(),
        baseline: 0,
        budget: gb(100.0),
        margin: gb(4.0),
        ceiling: gb(96.0) as i128,
        aux_cost: 0,
        n_packs: 0,
        n_heavies: 0,
        host_ceiling: None,
        host_skipped: None,
        host_cram_gb: None,
        host_over: Vec::new(),
    }
}

#[test]
fn the_tightest_combination_is_tested() {
    let plan = declared(&[
        ("aux", "embed", 5.0),
        ("pack1", "a & b & +aux", 60.0),
        ("pack2", "a & c & +aux", 80.0),
        ("heavy_d", "d", 90.0),
    ]);
    let records: Vec<ModelRecord> = ["a", "b", "c", "d", "embed"]
        .iter()
        .map(|id| ModelRecord::from_expanded(id, "/app/llama-server -m /m.gguf"))
        .collect();
    let (index, combo) = choose_set(&plan, &records, None).unwrap().expect("a combination");
    assert_eq!(plan.sets[index].name, "pack2");
    assert_eq!(combo, vec!["a", "c", "embed"]);
    let (index, _) = choose_set(&plan, &records, Some("pack1")).unwrap().expect("as asked");
    assert_eq!(plan.sets[index].name, "pack1");
    assert!(choose_set(&plan, &records, Some("heavy_d")).unwrap().is_none());
    let error = choose_set(&plan, &records, Some("pack9")).expect_err("no such set");
    assert!(matches!(error, ValidateError::NoSuchSet { .. }));
    assert!(error.message().contains("`pack9`"));
}

#[test]
fn only_a_clean_check_is_recorded() {
    let plan = declared(&[("pack1", "a & b", 60.0)]);
    let combo = || vec!["a".to_string(), "b".to_string()];
    let both = parse_running(
        r#"{"running":[{"model":"a","state":"ready"},{"model":"b","state":"ready"}]}"#,
    );
    let clean = assess(&plan, 0, combo(), &Vec::new(), &both, gb(60.5));
    assert!(clean.is_clean());
    assert_eq!((clean.predicted, clean.measured, clean.error), (gb(60.0), gb(60.5), gb(0.5)));
    let meta = record_check(BoxMeta::default(), &clean);
    assert_eq!(meta.additivity_check.unwrap().error, gb(0.5));

    let others = parse_running(
        r#"{"running":[{"model":"a","state":"ready"},{"model":"x","state":"ready"}]}"#,
    );
    let dirty = assess(&plan, 0, combo(), &vec!["a".to_string()], &others, gb(60.5));
    assert_eq!(dirty.absent, vec!["b".to_string(), "a".to_string()]);
    assert_eq!(dirty.intruders, vec!["x".to_string()]);
    assert!(!dirty.is_clean());
    assert!(record_check(BoxMeta::default(), &dirty).additivity_check.is_none());
}
