//! The scalar settings, and what the verbs say.

use llama_matrix::commands::{
    config_path, drift_lines, id_list, prunable, prune_lines, setting_lines, starter, sweep_lines,
    weights_path,
};
use llama_matrix::cache::ModelStore;
use llama_matrix::measure::{Failure, Remeasured, Sweep};
use llama_matrix::number::{
    count_text, gb1_text, gb2_text, number_text, parse_decimal, parse_mib, parse_u64,
    percent_text,
};
use llama_matrix::policy::Policy;
use llama_matrix::report::Drift;
use llama_matrix::sampling::ClearedPool;
use llama_matrix::settings::{
    get, held, is_readable, is_writable, keys, list, settings, unset, Kind, SettingsError,
};
use llama_matrix::ui::{bold, cyan, dim, green, red, yellow, Level, Line};

const SCALARS: &str = "
| `config` | string (path) | `config.yaml` |
| `endpoint` | string (URL) | `http://localhost:8080` |
| `budget` | float (GB) | *auto-detected total* |
| `margin` | float (GB) | `4.0` |
| `host_budget` | float (GB) | *the host total `measure` recorded* |
| `host_margin` | float (GB) | `4.0` |
| `host_cache_gb` | float (GB) | `8.0` |
| `on_host_overflow` | enum | `warn` |
| `strategy` | enum | `flat` |
| `on_overflow` | enum | `group` |
| `on_unconfirmed` | enum | `warn` |
| `probe_image_size` | string `WxH` | `1024x1024` |
";

fn gb(amount: f64) -> i64 {
    (amount * 1_024_000_000.0).round() as i64
}

/// The number that a value writes, as it is displayed.
fn number(value: &str) -> Option<String> {
    value.trim().parse::<f64>().ok().map(|number| format!("{number}"))
}

fn put(text: &str, key: &str, value: &str) -> Result<(String, String), SettingsError> {
    llama_matrix::settings::set(text, key, value, number(value).as_ref())
}

#[test]
fn every_setting_is_documented_in_spec() {
    for setting in settings() {
        assert!(
            SCALARS.contains(setting.key),
            "the table never mentions the `{}` setting - document it or drop the key",
            setting.key
        );
    }
}

#[test]
fn every_documented_setting_is_settable() {
    let documented: Vec<&str> =
        SCALARS.lines().filter_map(|row| row.strip_prefix("| `")?.split('`').next()).collect();
    assert_eq!(keys(), documented);
}

#[test]
fn set_get_unset_roundtrip_preserving_comments() {
    let text = "# hand-written header\nmargin = 4.0\n";

    assert_eq!(get(text, "budget").unwrap(), "(auto-detect)");
    let (_, text) = put(text, "budget", "50").unwrap();
    assert_eq!(get(&text, "budget").unwrap(), "50");
    let (shown, text) = put(&text, "strategy", "FAMILY").unwrap();
    assert_eq!(shown, "family");
    assert_eq!(get(&text, "strategy").unwrap(), "family");
    assert!(text.contains("# hand-written header"));
    assert!(text.contains("budget = 50.0"));

    let text = unset(&text, "budget").unwrap();
    assert_eq!(get(&text, "budget").unwrap(), "(auto-detect)");
    assert_eq!(get(&text, "strategy").unwrap(), "family");
    assert_eq!(get(&text, "margin").unwrap(), "4");
}

#[test]
fn rejects_bad_key_and_values() {
    assert!(matches!(put("", "nope", "x"), Err(SettingsError::UnknownKey { .. })));
    assert!(matches!(put("", "strategy", "bogus"), Err(SettingsError::NotAllowed { .. })));
    assert!(matches!(put("", "margin", "lots"), Err(SettingsError::NotANumber { .. })));
    assert!(matches!(put("not [ toml", "margin", "1"), Err(SettingsError::BadFile)));
    assert!(matches!(unset("not [ toml", "margin"), Err(SettingsError::BadFile)));
    assert!(matches!(get("", "nope"), Err(SettingsError::UnknownKey { .. })));
}

#[test]
fn errors_say_what_was_expected() {
    assert_eq!(
        put("", "strategy", "bogus").expect_err("a word").message(),
        "`strategy` expects one of [\"flat\", \"family\"], got `bogus`"
    );
    assert_eq!(
        put("", "margin", "lots").expect_err("a number").message(),
        "`margin` expects a number, got `lots`"
    );
    assert_eq!(
        get("", "nope").expect_err("a key").message(),
        "unknown setting `nope` — run `llama-matrix configure keys`"
    );
}

#[test]
fn values_are_written_as_what_they_are() {
    let (shown, text) = put("", "endpoint", "http://box:1").unwrap();
    assert_eq!(shown, "http://box:1");
    assert_eq!(text, "endpoint = \"http://box:1\"\n");
    let (shown, text) = put("[paths]\n\"/m\" = \"/w\"\n", "host_margin", " 2.50 ").unwrap();
    assert_eq!(shown, "2.5");
    assert_eq!(text, "host_margin = 2.5\n[paths]\n\"/m\" = \"/w\"\n");
    let (_, text) = put("", "budget", "1e30").unwrap();
    assert_eq!(get(&text, "budget").unwrap(), "1000000000000000000000000000000");

    let shown = list("margin = 6.5\n");
    assert_eq!(shown.len(), 12);
    assert!(shown.contains(&("margin", "6.5".to_string())));
    assert!(shown.contains(&("endpoint", "http://localhost:8080".to_string())));
    // A hand-written integer is a number of GB too.
    assert!(list("margin = 6\n").contains(&("margin", "6".to_string())));
    assert_eq!(get("budget = 50\n", "budget").unwrap(), "50");
    // What is of another type is not.
    assert_eq!(get("margin = \"6\"\n", "margin").unwrap(), "4.0");
    assert_eq!(get("endpoint = 6\n", "endpoint").unwrap(), "http://localhost:8080");
    assert!(matches!(settings()[2].kind, Kind::Float));
}

#[test]
fn numbers_are_written_and_read_back() {
    for value in
        ["50", "0.1", "-3", "-0", "1e300", "1e-300", "inf", "-inf", "nan", " 7. ", ".5", "+2"]
    {
        let (shown, text) = put("endpoint = \"e\"\n", "budget", value).unwrap();
        assert_eq!(Some(&shown), number(value).as_ref());
        assert!(is_readable(&text));
        assert_eq!(get(&text, "budget").unwrap(), shown);
        assert_eq!(get(&text, "endpoint").unwrap(), "e");
    }
    // What is displayed otherwise than it reads is no displayed number.
    for display in ["0x10", "1.50", "{ a = 1.5 }", "\"1.5\"", "1.5 # GB", "one"] {
        let refused =
            llama_matrix::settings::set("", "budget", "1", Some(&display.to_string()));
        assert!(matches!(refused, Err(SettingsError::NotANumber { .. })), "{display}");
    }
}

#[test]
fn comments_are_kept() {
    let file = "# head\n\n# above\nmargin = 4.0 # beside\nendpoint = \"http://x/#y\"  # url\n\
                # it's \"quoted\"\nbudget = 50.0\n# before\n[paths] # header\n\
                \"/m\" = \"/w\" # in it\n# last";
    let comments = [
        "# head", "# above", "# beside", "# url", "# it's \"quoted\"", "# before", "# header",
        "# in it", "# last",
    ];
    let kept = |text: &str| {
        for comment in comments {
            assert!(text.lines().any(|line| line.ends_with(comment)), "{comment}: {text}");
        }
    };
    let (_, text) = put(file, "margin", "6").unwrap();
    assert!(text.contains("# above\nmargin = 6.0 # beside\n"));
    kept(&text);
    let (_, text) = put(&text, "endpoint", "http://box:1").unwrap();
    assert!(text.contains("endpoint = \"http://box:1\"  # url\n"));
    kept(&text);
    let (_, text) = put(&text, "strategy", "family").unwrap();
    kept(&text);
    kept(&unset(&text, "host_budget").unwrap());
    let (_, text) = put(&file.replace('\n', "\r\n"), "budget", "7").unwrap();
    kept(&text);

    // What looks like a comment inside a string is part of the value.
    let long = "endpoint = \"\"\"\n# no comment\"\"\"\"\" # one\nconfig = \'\'\'\n# none\n\'\'\' # two\n";
    assert_eq!(get(long, "endpoint").unwrap(), "# no comment\"\"");
    let (_, text) = put(long, "endpoint", "e").unwrap();
    assert_eq!(text, "endpoint = \"e\" # one\nconfig = \'\'\'\n# none\n\'\'\' # two\n");
}

#[test]
fn tables_are_left_alone() {
    let file = "margin = 2.5\n[paths]\n\"/m\" = \"/w\"\n[evict_costs]\naux = 40\n[groups]\ng = [\"a\", \"b\"]\n";
    let paths = held(file, "paths").expect("a table");
    assert_eq!(paths.0, "table");
    assert!(paths.1.contains("/m") && paths.1.contains("/w"));
    assert_eq!(held(file, "margin"), Some(("float".to_string(), "2.5".to_string())));
    assert_eq!(held(file, "nothing"), None);

    let (_, set) = put(file, "endpoint", "http://box:1").unwrap();
    let (_, set) = put(&set, "margin", "3").unwrap();
    let left = unset(&set, "margin").unwrap();
    for key in ["paths", "evict_costs", "groups"] {
        assert_eq!(held(&set, key), held(file, key));
        assert_eq!(held(&left, key), held(file, key));
    }
    assert_eq!(held(&set, "endpoint"), Some(("string".to_string(), "http://box:1".to_string())));
    assert_eq!(held(&left, "margin"), None);
}

#[test]
fn a_file_that_does_not_read_as_a_table_shows_defaults() {
    let reserved = "\"$__toml_private_datetime\"";
    // Such a key makes a table a date, or no value at all.
    let inside = format!("[paths]\n{reserved} = 1.5\n");
    assert!(!is_readable(&inside));
    let (shown, after) = put(&inside, "endpoint", "e").unwrap();
    assert_eq!(shown, "e");
    assert!(!is_readable(&after));
    assert_eq!(get(&after, "endpoint").unwrap(), "http://localhost:8080");
    let dated = format!("{reserved} = \"1979-05-27\"\nmargin = 1.5\n");
    assert!(!is_readable(&dated));
    assert_eq!(get(&dated, "margin").unwrap(), "4.0");
    // Taking away what stood before it is enough.
    let second = format!("margin = 1.5\n{reserved} = \"1979-05-27\"\nendpoint = \"e\"\n");
    assert!(is_readable(&second));
    assert_eq!(get(&second, "endpoint").unwrap(), "e");
    let after = unset(&second, "margin").unwrap();
    assert!(!is_readable(&after));
    assert_eq!(get(&after, "endpoint").unwrap(), "http://localhost:8080");
    assert!(!is_readable("not [ toml"));
    assert!(is_readable(""));
}

#[test]
fn keys_are_distinct_and_are_those_known() {
    let all = keys();
    for (at, key) in all.iter().enumerate() {
        assert!(!all[..at].contains(key));
        assert!(get("", key).is_ok());
        assert_eq!(settings()[at].key, *key);
    }
    assert!(get("", "paths").is_err());
}

#[test]
fn odd_strings_are_written_and_read_back() {
    for value in ["it's \"odd\"", "a\\b", "two\nlines\r", "\u{1}", "", &"'".repeat(255)] {
        assert!(is_writable(value));
        let (shown, text) = put("margin = 1.5\n", "endpoint", value).unwrap();
        assert_eq!(shown, value);
        assert_eq!(get(&text, "endpoint").unwrap(), value);
        assert_eq!(get(&text, "margin").unwrap(), "1.5");
    }
    assert!(is_writable(&format!("{}x{}", "\"".repeat(255), "\"".repeat(255))));
    assert!(!is_writable(&"\"".repeat(256)));
    assert!(!is_writable(&format!("x{}y", "'".repeat(300))));
}

#[test]
fn keys_are_listed_with_their_defaults() {
    let lines = setting_lines();
    assert_eq!(lines[3], "margin           GB safety slack inside the budget  (default: 4.0)");
    assert_eq!(
        lines[7],
        "on_host_overflow host-RAM overflow handling  (default: warn)"
    );
}

// ---- verbs --------------------------------------------------------------------------------

#[test]
fn setup_writes_a_starter_config() {
    let config = "config.yaml".to_string();
    let text = starter("http://localhost:8080", Some(&config), None);
    assert!(text.contains("endpoint"));
    assert!(text.contains("config = \"config.yaml\""));
    assert_eq!(
        starter("http://box:1", None, Some(gb(111.52))),
        "endpoint = \"http://box:1\"\n\
         # detected ~111.5 GB pool; lower `budget` to reserve room for other apps\n\
         budget = 111.5\nmargin = 4.0\n"
    );
}

#[test]
fn the_config_is_the_one_asked_for() {
    let mut policy = Policy::default();
    assert_eq!(config_path(None, &policy), "config.yaml");
    policy.config = Some("swap.yaml".to_string());
    assert_eq!(config_path(None, &policy), "swap.yaml");
    assert_eq!(config_path(Some("mine.yaml".to_string()), &policy), "mine.yaml");
    assert_eq!(id_list("a, b ,c"), vec!["a", "b", "c"]);
}

#[test]
fn only_files_whose_weights_are_gone_are_pruned() {
    let mut policy = Policy::default();
    policy.paths.insert("/models".to_string(), "/srv".to_string());
    let file = |path: Option<&str>| ModelStore {
        model_type: "llm".to_string(),
        file: path.map(String::from),
        measurements: indexmap::IndexMap::new(),
    };
    assert_eq!(
        weights_path(Some(&file(Some("/models/a.gguf"))), &policy),
        Some("/srv/a.gguf".to_string())
    );
    assert_eq!(weights_path(Some(&file(None)), &policy), None);
    assert_eq!(weights_path(None, &policy), None);

    let ids = vec!["a".to_string(), "b".to_string(), "c".to_string()];
    let gone = prunable(&ids, &vec![Some(true), Some(false), None]);
    assert_eq!(gone, vec!["b".to_string()]);
    assert_eq!(
        prune_lines(&gone, false)[0].text,
        "would remove 1 measurement file(s) (weights gone): b"
    );
    assert_eq!(prune_lines(&gone, true)[0].text, "pruned 1 measurement file(s)");
    assert_eq!(prune_lines(&Vec::new(), true)[0].level, Level::Done);
}

#[test]
fn drift_is_told() {
    let drift = |in_sync: bool, has_block: bool| Drift {
        in_sync,
        has_block,
        would_generate_sets: 3,
        packs: 1,
        heavies: 0,
        excluded: vec!["x".to_string()],
        unconfirmed: Vec::new(),
    };
    let lines = drift_lines(&drift(true, true), "config.yaml");
    assert_eq!(lines[0].text, "in sync — the live matrix block matches a fresh build");
    assert_eq!(lines[1].text, "1 model(s) unmeasured/excluded");
    assert_eq!(lines.len(), 2);
    assert_eq!(
        drift_lines(&drift(false, false), "c.yaml")[0].text,
        "no matrix block in c.yaml — run `llama-matrix build --apply` to add one (3 sets)"
    );
    assert!(drift_lines(&drift(false, true), "c.yaml")[0].text.starts_with("drift — "));
}

#[test]
fn a_sweep_that_failed_anywhere_is_not_clean() {
    let opening = ClearedPool { used: gb(0.16), residents: Vec::new(), host: None };
    let mut summary = Sweep::open(gb(111.5), &opening).summary;
    summary.baseline = gb(0.16);
    let lines = sweep_lines(&summary);
    assert_eq!(lines[0].level, Level::Done);
    assert_eq!(
        lines[0].text,
        "baseline 0.16 GB · pool 111.5 GB · measured 0 · cached 0 · failed 0 · missing 0"
    );
    summary.unverified_serving.push("img".to_string());
    assert_eq!(sweep_lines(&summary)[0].level, Level::Done, "that never clears");
    assert_eq!(sweep_lines(&summary).len(), 2);
    summary.skipped_missing.push("gone".to_string());
    summary.failed.push(Failure { id: "bad".to_string(), reason: "why".to_string() });
    let lines = sweep_lines(&summary);
    assert_eq!(lines[0].level, Level::Alert);
    assert_eq!(lines[1].text, "bad: why");
    assert_eq!(lines[2].text, "gone: weight file missing — skipped");

    let mut summary = Sweep::open(gb(111.5), &opening).summary;
    summary.baseline = gb(0.5);
    summary.baseline_was = Some(gb(7.0));
    summary.contended.push(Failure { id: "c".to_string(), reason: "why".to_string() });
    summary.changed.push(Remeasured {
        id: "m".to_string(),
        previous: gb(32.16),
        current: gb(38.68),
        previous_measured_at: "2026-01-01".to_string(),
    });
    let lines = sweep_lines(&summary);
    assert_eq!(lines[1].text, "c: why");
    assert_eq!(
        lines[2].text,
        "m: measured 38.68 GB where 32.16 GB was recorded on 2026-01-01 - the same command, so at most one of them is right"
    );
    assert_eq!(
        lines[3].text,
        "the empty pool moved: it held 7.00 GB at the last sweep, and 0.50 GB now"
    );
}

#[test]
fn colour_is_only_added_when_asked_for() {
    assert_eq!(green("x", false), "x");
    assert_eq!(green("x", true), "\u{1b}[1;32mx\u{1b}[0m");
    assert_eq!(red("x", true), "\u{1b}[1;31mx\u{1b}[0m");
    assert_eq!(yellow("x", true), "\u{1b}[1;33mx\u{1b}[0m");
    assert_eq!(cyan("x", true), "\u{1b}[1;36mx\u{1b}[0m");
    assert_eq!(bold("x", true), "\u{1b}[1mx\u{1b}[0m");
    assert_eq!(dim("x", true), "\u{1b}[2mx\u{1b}[0m");
    assert_eq!(Line::new(Level::Warning, "careful".to_string()).shown(false), "warning: careful");
    assert_eq!(Line::new(Level::Alert, "look".to_string()).shown(false), "⚠ look");
    assert_eq!(Line::new(Level::Info, "so".to_string()).shown(true), "so");
}

#[test]
fn amounts_are_shown_in_gb() {
    assert_eq!(gb2_text(gb(8.87) as i128), "8.87");
    assert_eq!(gb1_text(gb(111.52) as i128), "111.5");
    assert_eq!(gb2_text(-(gb(0.5) as i128)), "-0.50");
    // Half-way between two decimals, the number is shown as a double of it is.
    for twentieths in [1, 3, 5, 7, 403, 405, 1001, 2231, 40_005] {
        let shown = format!("{:.1}", f64::from(twentieths) / 20.0);
        assert_eq!(gb1_text(i128::from(twentieths) * 51_200_000), shown);
    }
    for parts in [1, 3, 25, 201, 4031, 20_155, 22_303] {
        let shown = format!("{:.2}", f64::from(parts) / 200.0);
        assert_eq!(gb2_text(i128::from(parts) * 5_120_000), shown);
    }
    assert_eq!(gb1_text(gb(20.15) as i128), "20.1");
    assert_eq!(percent_text(gb(8.87), gb(16.55)), "54");
    assert_eq!(number_text(0), "0");
    assert_eq!(count_text(1024), "1024");
    assert_eq!(parse_u64("+42"), Some(42));
    assert_eq!(parse_u64("4 2"), None);
    assert_eq!(parse_mib("1024"), Some(gb(1.0)));
    assert_eq!(parse_mib("0.5"), Some(500_000));
}

#[test]
fn numbers_of_mib_may_have_an_exponent() {
    let mib = |n: i64| Some(n * 1_000_000);
    assert_eq!(parse_mib("8e3"), mib(8_000));
    assert_eq!(parse_mib("8.192E+3"), mib(8_192));
    assert_eq!(parse_mib("-81920e-1"), mib(-8_192));
    assert_eq!(parse_mib("+.5e1"), mib(5));
    assert_eq!(parse_mib("5."), mib(5));
    assert_eq!(parse_mib("0.1234567"), Some(123_456));
    assert_eq!(parse_mib("12345678e-7"), Some(1_234_567));
    assert_eq!(parse_mib("1e-7"), Some(0));
    assert_eq!(parse_mib("1e-99999999999999999999999999999999999999999999"), Some(0));
    assert_eq!(parse_mib("0e99999999999999999999999999999999999999999999"), Some(0));
    assert_eq!(parse_mib("1e99999999999999999999999999999999999999999999"), Some(i64::MAX));
    assert_eq!(parse_mib("-1e30"), Some(-i64::MAX));
    for text in ["", "+", ".", "e3", "1e", "1e+", "1e3.0", "1e3e3", "1.2.3", "--1", "1 ", "nan", "in"] {
        assert_eq!(parse_mib(text), None, "{text}");
    }
    assert_eq!(parse_mib("Inf"), Some(i64::MAX));
    assert_eq!(parse_mib("-infinity"), Some(-i64::MAX));
    assert_eq!(parse_decimal("2.5e2"), Some(250_000_000));
    assert_eq!(parse_decimal("-1e400"), Some(-1_000_000_000_000_000_000_000_000_000));
}
