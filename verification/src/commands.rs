//! What each verb decides and says, between reading its inputs and writing its results.

use vstd::prelude::*;
use vstd::string::*;

use crate::cache::{ModelStore, StoreView};
use crate::measure::{Failure, FailureView, MeasureSummary, Remeasured, RemeasuredView, SummaryView};
use crate::model::text_view;
use crate::number::{count_text, digits, gb1, gb1_text, gb2, gb2_text};
use crate::policy::{host_path, Policy, PolicyView};
use crate::report::Drift;
use crate::settings::{known_settings, settings, SettingView};
use crate::text::{join, joined, lemma_views_push, pieces, split_on, trim, trim_both, views};
use crate::ui::{Level, Line, LineView};

verus! {

// ---- inputs -------------------------------------------------------------------------------

/// Which config to work on: the one asked for, else the policy's, else `config.yaml`.
pub open spec fn chosen_config(asked: Option<Seq<char>>, policy: PolicyView) -> Seq<char> {
    match asked {
        Some(path) => path,
        None => match policy.config {
            Some(path) => path,
            None => "config.yaml"@,
        },
    }
}

/// Which config to work on.
pub fn config_path(asked: Option<String>, policy: &Policy) -> (path: String)
    ensures
        path@ == chosen_config(text_view(asked), policy@),
{
    match asked {
        Some(path) => path,
        None => match &policy.config {
            Some(path) => path.clone(),
            None => "config.yaml".to_owned(),
        },
    }
}

/// The ids of a comma-separated list, without the space around them.
pub open spec fn listed_ids(list: Seq<char>) -> Seq<Seq<char>> {
    pieces(list, ',').map_values(|id: Seq<char>| trim_both(id))
}

/// The ids of a comma-separated list.
pub fn id_list(list: &str) -> (ids: Vec<String>)
    ensures
        views(ids@) == listed_ids(list@),
{
    let parts = split_on(list, ',');
    let mut ids: Vec<String> = Vec::new();
    let mut at: usize = 0;
    while at < parts.len()
        invariant
            at <= parts@.len(),
            views(parts@) == pieces(list@, ','),
            ids@.len() == at,
            forall|i: int| 0 <= i < at ==> (#[trigger] ids@[i])@ == trim_both(parts@[i]@),
        decreases parts@.len() - at,
    {
        ids.push(trim(parts[at].as_str()));
        at = at + 1;
    }
    proof {
        assert(views(parts@).len() == parts@.len());
        assert forall|i: int| 0 <= i < ids@.len() implies #[trigger] views(ids@)[i] == listed_ids(
            list@,
        )[i] by {
            assert(views(parts@)[i] == parts@[i]@);
            assert(ids@[i]@ == trim_both(parts@[i]@));
        }
        assert(views(ids@) =~= listed_ids(list@));
    }
    ids
}

// ---- setup --------------------------------------------------------------------------------

/// The lines of a starter `llama-matrix.toml`.
pub open spec fn starter_lines(
    endpoint: Seq<char>,
    config: Option<Seq<char>>,
    total: Option<int>,
) -> Seq<Seq<char>> {
    seq!["endpoint = \""@ + endpoint + "\""@] + (match config {
        Some(path) => seq!["config = \""@ + path + "\""@],
        None => Seq::empty(),
    }) + (match total {
        Some(units) => seq![
            "# detected ~"@ + gb1(units)
                + " GB pool; lower `budget` to reserve room for other apps"@,
            "budget = "@ + gb1(units),
        ],
        None => seq![
            "# no GPU sensor detected — set the pool to plan against:"@,
            "# budget = 96.0"@,
        ],
    }) + seq!["margin = 4.0"@]
}

/// A starter `llama-matrix.toml`: the endpoint, the config where one was found, and the pool
/// that was detected, or a place to write it.
pub fn starter(endpoint: &str, config: Option<&String>, total: Option<i64>) -> (text: String)
    ensures
        text@ == joined(
            starter_lines(
                endpoint@,
                crate::settings::given_text(config),
                crate::units::amount_view(total),
            ),
            "\n"@,
        ) + "\n"@,
{
    let mut lines: Vec<String> = Vec::new();
    lines.push("endpoint = \"".to_owned().concat(endpoint).concat("\""));
    match config {
        Some(path) => {
            lines.push("config = \"".to_owned().concat(path.as_str()).concat("\""));
        },
        None => {},
    }
    match total {
        Some(units) => {
            let amount = gb1_text(units as i128);
            lines.push(
                "# detected ~".to_owned().concat(amount.as_str()).concat(
                    " GB pool; lower `budget` to reserve room for other apps",
                ),
            );
            lines.push("budget = ".to_owned().concat(amount.as_str()));
        },
        None => {
            lines.push("# no GPU sensor detected — set the pool to plan against:".to_owned());
            lines.push("# budget = 96.0".to_owned());
        },
    }
    lines.push("margin = 4.0".to_owned());
    proof {
        assert(views(lines@) =~= starter_lines(
            endpoint@,
            crate::settings::given_text(config),
            crate::units::amount_view(total),
        ));
    }
    join(&lines, "\n").concat("\n")
}

// ---- prune --------------------------------------------------------------------------------

/// Where the weights of a model's file lie on the host, where it names any.
pub open spec fn weights_of(file: Option<StoreView>, policy: PolicyView) -> Option<Seq<char>> {
    match file {
        Some(store) => match store.file {
            Some(path) => Some(host_path(policy.paths, path)),
            None => None,
        },
        None => None,
    }
}

/// The file whose absence lets a model's measurements go. `None` where it names no weights:
/// then they stay.
pub fn weights_path(file: Option<&ModelStore>, policy: &Policy) -> (path: Option<String>)
    ensures
        text_view(path) == weights_of(stored_view(file), policy@),
{
    match file {
        Some(store) => match &store.file {
            Some(container_file) => Some(policy.to_host(container_file.as_str())),
            None => None,
        },
        None => None,
    }
}

pub open spec fn stored_view(file: Option<&ModelStore>) -> Option<StoreView> {
    match file {
        Some(store) => Some(store@),
        None => None,
    }
}

/// The ids among the first `bound` whose weights were looked for and not there. `present`
/// says of each whether they were; `None` where none were looked for.
pub open spec fn gone_among(ids: Seq<Seq<char>>, present: Seq<Option<bool>>, bound: nat) -> Seq<
    Seq<char>,
>
    decreases bound,
{
    if bound == 0 {
        Seq::empty()
    } else {
        let before = gone_among(ids, present, (bound - 1) as nat);
        if present[bound - 1] == Some(false) {
            before.push(ids[bound - 1])
        } else {
            before
        }
    }
}

/// Which measurement files to remove.
pub fn prunable(ids: &Vec<String>, present: &Vec<Option<bool>>) -> (gone: Vec<String>)
    requires
        ids@.len() == present@.len(),
    ensures
        views(gone@) == gone_among(views(ids@), present@, ids@.len() as nat),
{
    let mut gone: Vec<String> = Vec::new();
    let mut at: usize = 0;
    proof {
        assert(views(gone@) =~= gone_among(views(ids@), present@, 0));
    }
    while at < ids.len()
        invariant
            at <= ids@.len(),
            ids@.len() == present@.len(),
            views(gone@) == gone_among(views(ids@), present@, at as nat),
        decreases ids@.len() - at,
    {
        match present[at] {
            Some(false) => {
                let id = ids[at].clone();
                proof {
                    lemma_views_push(gone@, id);
                }
                gone.push(id);
            },
            _ => {},
        }
        at = at + 1;
    }
    gone
}

/// Only what is gone is removed: an id is let go of if and only if its weights were looked
/// for and not there.
pub proof fn law_only_what_is_gone_is_pruned(
    ids: Seq<Seq<char>>,
    present: Seq<Option<bool>>,
    id: Seq<char>,
)
    requires
        ids.len() == present.len(),
    ensures
        gone_among(ids, present, ids.len()).contains(id) <==> exists|i: int|
            0 <= i < ids.len() && #[trigger] ids[i] == id && present[i] == Some(false),
{
    lemma_gone(ids, present, ids.len(), id);
}

proof fn lemma_gone(ids: Seq<Seq<char>>, present: Seq<Option<bool>>, bound: nat, id: Seq<char>)
    requires
        ids.len() == present.len(),
        bound <= ids.len(),
    ensures
        gone_among(ids, present, bound).contains(id) <==> exists|i: int|
            0 <= i < bound && #[trigger] ids[i] == id && present[i] == Some(false),
    decreases bound,
{
    if bound > 0 {
        let n = (bound - 1) as nat;
        lemma_gone(ids, present, n, id);
        let before = gone_among(ids, present, n);
        if present[n as int] == Some(false) {
            let after = before.push(ids[n as int]);
            assert(after[before.len() as int] == ids[n as int]);
            if before.contains(id) {
                let k = choose|k: int| 0 <= k < before.len() && before[k] == id;
                assert(after[k] == id);
            }
            if after.contains(id) && !before.contains(id) {
                let k = choose|k: int| 0 <= k < after.len() && after[k] == id;
                assert(k == before.len()) by {
                    if k < before.len() {
                        assert(before[k] == id);
                    }
                }
                assert(ids[n as int] == id);
            }
        }
    }
}

/// What `prune` tells: that there is nothing to do, what it would remove, or what it did.
pub open spec fn prune_report(gone: Seq<Seq<char>>, removed: bool) -> Seq<LineView> {
    if gone.len() == 0 {
        seq![
            LineView {
                level: Level::Done,
                text: "nothing to prune — every measured model's weight file is still present"@,
            },
        ]
    } else if removed {
        seq![
            LineView {
                level: Level::Done,
                text: "pruned "@ + digits(gone.len()) + " measurement file(s)"@,
            },
        ]
    } else {
        seq![
            LineView {
                level: Level::Warning,
                text: "would remove "@ + digits(gone.len())
                    + " measurement file(s) (weights gone): "@ + joined(gone, ", "@),
            },
            LineView { level: Level::Info, text: "re-run with --yes to remove them"@ },
        ]
    }
}

/// The lines that `prune` shows.
pub fn prune_lines(gone: &Vec<String>, removed: bool) -> (lines: Vec<Line>)
    ensures
        views(lines@) == prune_report(views(gone@), removed),
{
    let mut lines: Vec<Line> = Vec::new();
    if gone.len() == 0 {
        lines.push(
            Line::new(
                Level::Done,
                "nothing to prune — every measured model's weight file is still present".to_owned(),
            ),
        );
    } else if removed {
        lines.push(
            Line::new(
                Level::Done,
                "pruned ".to_owned().concat(count_text(gone.len()).as_str()).concat(
                    " measurement file(s)",
                ),
            ),
        );
    } else {
        lines.push(
            Line::new(
                Level::Warning,
                "would remove ".to_owned().concat(count_text(gone.len()).as_str()).concat(
                    " measurement file(s) (weights gone): ",
                ).concat(join(gone, ", ").as_str()),
            ),
        );
        lines.push(Line::new(Level::Info, "re-run with --yes to remove them".to_owned()));
    }
    proof {
        assert(views(gone@).len() == gone@.len());
        assert(views(lines@) =~= prune_report(views(gone@), removed));
    }
    lines
}

// ---- drift --------------------------------------------------------------------------------

/// What `drift` tells: whether the live block is the fresh one, and what the plan leaves out
/// or takes on trust.
pub open spec fn drift_report(drift: Drift, config_path: Seq<char>) -> Seq<LineView> {
    seq![
        if drift.in_sync {
            LineView {
                level: Level::Done,
                text: "in sync — the live matrix block matches a fresh build"@,
            }
        } else if !drift.has_block {
            LineView {
                level: Level::Warning,
                text: "no matrix block in "@ + config_path
                    + " — run `llama-matrix build --apply` to add one ("@ + digits(
                    drift.would_generate_sets as nat,
                ) + " sets)"@,
            }
        } else {
            LineView {
                level: Level::Warning,
                text: "drift — the live block differs from a fresh build ("@ + digits(
                    drift.would_generate_sets as nat,
                ) + " sets); run `llama-matrix build --apply`"@,
            }
        },
    ] + (if drift.excluded@.len() == 0 {
        Seq::empty()
    } else {
        seq![
            LineView {
                level: Level::Info,
                text: digits(drift.excluded@.len()) + " model(s) unmeasured/excluded"@,
            },
        ]
    }) + (if drift.unconfirmed@.len() == 0 {
        Seq::empty()
    } else {
        seq![
            LineView {
                level: Level::Warning,
                text: digits(drift.unconfirmed@.len())
                    + " footprint(s) unconfirmed (may be under-measured): run `llama-matrix build` to see the affected sets, or re-run `measure`"@,
            },
        ]
    })
}

/// The lines that `drift` shows.
pub fn drift_lines(drift: &Drift, config_path: &str) -> (lines: Vec<Line>)
    ensures
        views(lines@) == drift_report(*drift, config_path@),
{
    let mut lines: Vec<Line> = Vec::new();
    if drift.in_sync {
        lines.push(
            Line::new(
                Level::Done,
                "in sync — the live matrix block matches a fresh build".to_owned(),
            ),
        );
    } else if !drift.has_block {
        lines.push(
            Line::new(
                Level::Warning,
                "no matrix block in ".to_owned().concat(config_path).concat(
                    " — run `llama-matrix build --apply` to add one (",
                ).concat(count_text(drift.would_generate_sets).as_str()).concat(" sets)"),
            ),
        );
    } else {
        lines.push(
            Line::new(
                Level::Warning,
                "drift — the live block differs from a fresh build (".to_owned().concat(
                    count_text(drift.would_generate_sets).as_str(),
                ).concat(" sets); run `llama-matrix build --apply`"),
            ),
        );
    }
    if drift.excluded.len() > 0 {
        lines.push(
            Line::new(
                Level::Info,
                count_text(drift.excluded.len()).concat(" model(s) unmeasured/excluded"),
            ),
        );
    }
    if drift.unconfirmed.len() > 0 {
        lines.push(
            Line::new(
                Level::Warning,
                count_text(drift.unconfirmed.len()).concat(
                    " footprint(s) unconfirmed (may be under-measured): run `llama-matrix build` to see the affected sets, or re-run `measure`",
                ),
            ),
        );
    }
    proof {
        assert(views(lines@) =~= drift_report(*drift, config_path@));
    }
    lines
}

// ---- measure ------------------------------------------------------------------------------

/// A sweep came off clean: nothing failed, nothing was missing, and no footprint was recorded
/// without seeing the allocation finish. A backend that cannot say which command it runs does
/// not count against it: that never clears.
pub open spec fn is_clean(summary: SummaryView) -> bool {
    summary.failed.len() == 0 && summary.skipped_missing.len() == 0
        && summary.unconfirmed_allocation.len() == 0
}

/// The counts of a sweep.
pub open spec fn headline(summary: SummaryView) -> Seq<char> {
    "baseline "@ + gb2(summary.baseline as int) + " GB · pool "@ + gb1(
        summary.detected_total as int,
    ) + " GB · measured "@ + digits(summary.measured.len()) + " · cached "@ + digits(
        summary.cached.len(),
    ) + " · failed "@ + digits(summary.failed.len()) + " · missing "@ + digits(
        summary.skipped_missing.len(),
    )
}

/// A warning about one model, with words between its id and the reason.
pub open spec fn warnings_of(failures: Seq<FailureView>, between: Seq<char>) -> Seq<LineView> {
    Seq::new(
        failures.len(),
        |i: int|
            LineView {
                level: Level::Warning,
                text: failures[i].id + between + failures[i].reason,
            },
    )
}

pub open spec fn missing_lines(ids: Seq<Seq<char>>) -> Seq<LineView> {
    Seq::new(
        ids.len(),
        |i: int|
            LineView {
                level: Level::Warning,
                text: ids[i] + ": weight file missing — skipped"@,
            },
    )
}

/// A footprint that did not come out as recorded: both numbers, and when the first was taken.
pub open spec fn changed_lines(changed: Seq<RemeasuredView>) -> Seq<LineView> {
    Seq::new(
        changed.len(),
        |i: int|
            LineView {
                level: Level::Warning,
                text: changed[i].id + ": measured "@ + gb2(changed[i].current as int)
                    + " GB where "@ + gb2(changed[i].previous as int) + " GB was recorded on "@
                    + changed[i].previous_measured_at
                    + " - the same command, so at most one of them is right"@,
            },
    )
}

/// What there is to say of the box's baseline: that it was never seen, or that it moved.
pub open spec fn baseline_lines(summary: SummaryView) -> Seq<LineView> {
    (if summary.no_empty_pool {
        seq![
            LineView {
                level: Level::Warning,
                text: "the pool was never seen empty, so the stored baseline was kept"@,
            },
        ]
    } else {
        Seq::empty()
    }) + (match summary.baseline_was {
        Some(was) => seq![
            LineView {
                level: Level::Warning,
                text: "the empty pool moved: it held "@ + gb2(was as int)
                    + " GB at the last sweep, and "@ + gb2(summary.baseline as int) + " GB now"@,
            },
        ],
        None => Seq::empty(),
    })
}

/// What `measure` tells: the counts, flagged where the sweep was not clean, and then each
/// model that something is to be said of.
pub open spec fn sweep_report(summary: SummaryView) -> Seq<LineView> {
    seq![
        LineView {
            level: if is_clean(summary) {
                Level::Done
            } else {
                Level::Alert
            },
            text: headline(summary),
        },
    ] + warnings_of(summary.failed, ": "@) + missing_lines(summary.skipped_missing) + warnings_of(
        summary.unconfirmed_allocation,
        ": recorded WITHOUT confirming the allocation finished - "@,
    ) + warnings_of(summary.below_weight_floor, ": "@) + warnings_of(
        summary.contended,
        ": "@,
    ) + changed_lines(summary.changed) + baseline_lines(summary) + (if
        summary.unverified_serving.len() == 0 {
        Seq::empty()
    } else {
        seq![
            LineView {
                level: Level::Warning,
                text: digits(summary.unverified_serving.len())
                    + " model(s) recorded without confirming llama-swap loaded the measured command (no /props on that backend): "@
                    + joined(summary.unverified_serving, ", "@),
            },
        ]
    })
}

fn push_warnings(lines: &mut Vec<Line>, failures: &Vec<Failure>, between: &str)
    ensures
        views(final(lines)@) == views(old(lines)@) + warnings_of(views(failures@), between@),
{
    let ghost before = views(lines@);
    let ghost told = warnings_of(views(failures@), between@);
    let mut at: usize = 0;
    proof {
        assert(before + told.take(0) =~= before);
    }
    while at < failures.len()
        invariant
            at <= failures@.len(),
            told == warnings_of(views(failures@), between@),
            views(lines@) == before + told.take(at as int),
        decreases failures@.len() - at,
    {
        let failure = &failures[at];
        let warning = Line::new(
            Level::Warning,
            failure.id.clone().concat(between).concat(failure.reason.as_str()),
        );
        proof {
            lemma_views_push(lines@, warning);
            assert(views(failures@)[at as int] == failure@);
            assert(told[at as int] == warning@);
            assert(told.take(at + 1) =~= told.take(at as int).push(told[at as int]));
            assert((before + told.take(at as int)).push(warning@) =~= before + told.take(at + 1));
        }
        lines.push(warning);
        at = at + 1;
    }
    proof {
        assert(told.take(at as int) =~= told);
    }
}

fn push_missing(lines: &mut Vec<Line>, ids: &Vec<String>)
    ensures
        views(final(lines)@) == views(old(lines)@) + missing_lines(views(ids@)),
{
    let ghost before = views(lines@);
    let ghost told = missing_lines(views(ids@));
    let mut at: usize = 0;
    proof {
        assert(before + told.take(0) =~= before);
    }
    while at < ids.len()
        invariant
            at <= ids@.len(),
            told == missing_lines(views(ids@)),
            views(lines@) == before + told.take(at as int),
        decreases ids@.len() - at,
    {
        let warning = Line::new(
            Level::Warning,
            ids[at].clone().concat(": weight file missing — skipped"),
        );
        proof {
            lemma_views_push(lines@, warning);
            assert(views(ids@)[at as int] == ids@[at as int]@);
            assert(told[at as int] == warning@);
            assert(told.take(at + 1) =~= told.take(at as int).push(told[at as int]));
            assert((before + told.take(at as int)).push(warning@) =~= before + told.take(at + 1));
        }
        lines.push(warning);
        at = at + 1;
    }
    proof {
        assert(told.take(at as int) =~= told);
    }
}

fn push_changed(lines: &mut Vec<Line>, changed: &Vec<Remeasured>)
    ensures
        views(final(lines)@) == views(old(lines)@) + changed_lines(views(changed@)),
{
    let ghost before = views(lines@);
    let ghost told = changed_lines(views(changed@));
    let mut at: usize = 0;
    proof {
        assert(before + told.take(0) =~= before);
    }
    while at < changed.len()
        invariant
            at <= changed@.len(),
            told == changed_lines(views(changed@)),
            views(lines@) == before + told.take(at as int),
        decreases changed@.len() - at,
    {
        let entry = &changed[at];
        let warning = Line::new(
            Level::Warning,
            entry.id.clone().concat(": measured ").concat(
                gb2_text(entry.current as i128).as_str(),
            ).concat(" GB where ").concat(gb2_text(entry.previous as i128).as_str()).concat(
                " GB was recorded on ",
            ).concat(entry.previous_measured_at.as_str()).concat(
                " - the same command, so at most one of them is right",
            ),
        );
        proof {
            lemma_views_push(lines@, warning);
            assert(views(changed@)[at as int] == entry@);
            assert(told[at as int] == warning@);
            assert(told.take(at + 1) =~= told.take(at as int).push(told[at as int]));
            assert((before + told.take(at as int)).push(warning@) =~= before + told.take(at + 1));
        }
        lines.push(warning);
        at = at + 1;
    }
    proof {
        assert(told.take(at as int) =~= told);
    }
}

fn push_baseline(lines: &mut Vec<Line>, summary: &MeasureSummary)
    ensures
        views(final(lines)@) == views(old(lines)@) + baseline_lines(summary@),
{
    let ghost before = views(lines@);
    if summary.no_empty_pool {
        lines.push(
            Line::new(
                Level::Warning,
                "the pool was never seen empty, so the stored baseline was kept".to_owned(),
            ),
        );
    }
    if let Some(was) = summary.baseline_was {
        lines.push(
            Line::new(
                Level::Warning,
                "the empty pool moved: it held ".to_owned().concat(
                    gb2_text(was as i128).as_str(),
                ).concat(" GB at the last sweep, and ").concat(
                    gb2_text(summary.baseline as i128).as_str(),
                ).concat(" GB now"),
            ),
        );
    }
    proof {
        assert(views(lines@) =~= before + baseline_lines(summary@));
    }
}

/// The lines that `measure` shows.
pub fn sweep_lines(summary: &MeasureSummary) -> (lines: Vec<Line>)
    ensures
        views(lines@) == sweep_report(summary@),
{
    let clean = summary.failed.len() == 0 && summary.skipped_missing.len() == 0
        && summary.unconfirmed_allocation.len() == 0;
    let text = "baseline ".to_owned().concat(gb2_text(summary.baseline as i128).as_str()).concat(
        " GB · pool ",
    ).concat(gb1_text(summary.detected_total as i128).as_str()).concat(" GB · measured ").concat(
        count_text(summary.measured.len()).as_str(),
    ).concat(" · cached ").concat(count_text(summary.cached.len()).as_str()).concat(
        " · failed ",
    ).concat(count_text(summary.failed.len()).as_str()).concat(" · missing ").concat(
        count_text(summary.skipped_missing.len()).as_str(),
    );
    let mut lines: Vec<Line> = Vec::new();
    lines.push(
        Line::new(
            if clean {
                Level::Done
            } else {
                Level::Alert
            },
            text,
        ),
    );
    let ghost head = views(lines@);
    push_warnings(&mut lines, &summary.failed, ": ");
    push_missing(&mut lines, &summary.skipped_missing);
    push_warnings(
        &mut lines,
        &summary.unconfirmed_allocation,
        ": recorded WITHOUT confirming the allocation finished - ",
    );
    push_warnings(&mut lines, &summary.below_weight_floor, ": ");
    push_warnings(&mut lines, &summary.contended, ": ");
    push_changed(&mut lines, &summary.changed);
    push_baseline(&mut lines, summary);
    let ghost told = views(lines@);
    if summary.unverified_serving.len() > 0 {
        let warning = Line::new(
            Level::Warning,
            count_text(summary.unverified_serving.len()).concat(
                " model(s) recorded without confirming llama-swap loaded the measured command (no /props on that backend): ",
            ).concat(join(&summary.unverified_serving, ", ").as_str()),
        );
        proof {
            lemma_views_push(lines@, warning);
            assert(told.push(warning@) =~= told + seq![warning@]);
        }
        lines.push(warning);
    } else {
        proof {
            assert(told + Seq::<LineView>::empty() =~= told);
        }
    }
    proof {
        let view = summary@;
        assert(view.failed.len() == summary.failed@.len());
        assert(view.skipped_missing.len() == summary.skipped_missing@.len());
        assert(view.unconfirmed_allocation.len() == summary.unconfirmed_allocation@.len());
        assert(view.unverified_serving.len() == summary.unverified_serving@.len());
        assert(head =~= seq![
            LineView {
                level: if is_clean(view) {
                    Level::Done
                } else {
                    Level::Alert
                },
                text: headline(view),
            },
        ]);
    }
    lines
}

// ---- configure ----------------------------------------------------------------------------

/// A text with spaces behind it up to a width.
pub open spec fn padded(text: Seq<char>, width: nat) -> Seq<char> {
    if text.len() < width {
        text + Seq::new((width - text.len()) as nat, |i: int| ' ')
    } else {
        text
    }
}

fn pad(text: &str, width: usize) -> (r: String)
    ensures
        r@ == padded(text@, width as nat),
{
    let mut r = text.to_owned();
    let mut length: usize = text.unicode_len();
    let ghost first = length;
    while length < width
        invariant
            first == text@.len(),
            first <= length,
            length <= width || length == first,
            r@ == text@ + Seq::new((length - first) as nat, |i: int| ' '),
        decreases width - length,
    {
        proof {
            assert((text@ + Seq::new((length - first) as nat, |i: int| ' ')).push(' ') =~= text@
                + Seq::new((length + 1 - first) as nat, |i: int| ' '));
        }
        r.push(' ');
        length = length + 1;
    }
    proof {
        if text@.len() >= width {
            assert(r@ =~= text@);
        }
    }
    r
}

/// A setting as `configure keys` lists it.
pub open spec fn setting_line(setting: SettingView) -> Seq<char> {
    padded(setting.key, 16) + " "@ + setting.desc + "  (default: "@ + setting.default + ")"@
}

/// One line for each setting: its key, what it is, and its default.
pub fn setting_lines() -> (lines: Vec<String>)
    ensures
        views(lines@) == known_settings().map_values(
            |setting: SettingView| setting_line(setting),
        ),
{
    let list = settings();
    let mut lines: Vec<String> = Vec::new();
    let mut at: usize = 0;
    while at < list.len()
        invariant
            at <= list@.len(),
            views(list@) == known_settings(),
            lines@.len() == at,
            forall|i: int| 0 <= i < at ==> (#[trigger] lines@[i])@ == setting_line(
                known_settings()[i],
            ),
        decreases list@.len() - at,
    {
        let setting = &list[at];
        proof {
            assert(views(list@)[at as int] == setting@);
        }
        lines.push(
            pad(setting.key, 16).concat(" ").concat(setting.desc).concat("  (default: ").concat(
                setting.default,
            ).concat(")"),
        );
        at = at + 1;
    }
    proof {
        assert(views(list@).len() == list@.len());
        assert(views(lines@) =~= known_settings().map_values(
            |setting: SettingView| setting_line(setting),
        ));
    }
    lines
}

// ---- which config, and whose weights ------------------------------------------------------

/// A config that is asked for is worked on, else the policy's, else the one beside it.
pub proof fn law_the_asked_for_config_wins(asked: Option<Seq<char>>, policy: PolicyView)
    ensures
        asked is Some ==> chosen_config(asked, policy) == asked->0,
        asked is None && policy.config is Some ==> chosen_config(asked, policy)
            == policy.config->0,
        asked is None && policy.config is None ==> chosen_config(asked, policy)
            == "config.yaml"@,
{
}

/// A list of ids has one for each comma more than one, in order, without the space around it.
pub proof fn law_ids_are_listed_by_commas(list: Seq<char>, i: int)
    requires
        0 <= i < pieces(list, ',').len(),
    ensures
        listed_ids(list).len() == pieces(list, ',').len(),
        listed_ids(list)[i] == trim_both(pieces(list, ',')[i]),
{
}

/// The weights that are looked for are the file's own, where they lie on the host; a file that
/// names none is never let go of.
pub proof fn law_a_file_without_weights_is_kept(file: StoreView, policy: PolicyView)
    ensures
        file.file is Some ==> weights_of(Some(file), policy) == Some(
            host_path(policy.paths, file.file->0),
        ),
        file.file is None ==> weights_of(Some(file), policy) is None,
        weights_of(None, policy) is None,
{
}

/// A starter names the endpoint, and the config where one was found; it sets the detected pool
/// as the budget, or leaves the budget to be written.
pub proof fn law_a_starter_holds_what_was_found(
    endpoint: Seq<char>,
    config: Option<Seq<char>>,
    total: Option<int>,
)
    ensures
        starter_lines(endpoint, config, total).contains("endpoint = \""@ + endpoint + "\""@),
        config is Some ==> starter_lines(endpoint, config, total).contains(
            "config = \""@ + config->0 + "\""@,
        ),
        total is Some ==> starter_lines(endpoint, config, total).contains(
            "budget = "@ + gb1(total->0),
        ),
        starter_lines(endpoint, config, total).contains("margin = 4.0"@),
{
    let lines = starter_lines(endpoint, config, total);
    assert(lines[0] == "endpoint = \""@ + endpoint + "\""@);
    if config is Some {
        assert(lines[1] == "config = \""@ + config->0 + "\""@);
    }
    assert(lines[lines.len() - 1] == "margin = 4.0"@);
    if total is Some {
        assert(lines[lines.len() - 2] == "budget = "@ + gb1(total->0));
    }
}

// ---- what is told -------------------------------------------------------------------------

/// A sweep is told as done exactly if nothing failed, no weight file was missing and every
/// allocation was seen to finish.
pub proof fn law_a_sweep_is_done_only_if_nothing_is_wrong(summary: SummaryView)
    ensures
        sweep_report(summary).len() > 0,
        sweep_report(summary)[0].level == Level::Done <==> summary.failed.len() == 0
            && summary.skipped_missing.len() == 0 && summary.unconfirmed_allocation.len() == 0,
        sweep_report(summary)[0].level == Level::Done || sweep_report(summary)[0].level
            == Level::Alert,
{
}

/// A sweep names every model that failed, with the reason, that was missing, that was recorded
/// unconfirmed, below its weights or beside another load, and that was read differently before.
pub proof fn law_a_sweep_tells_what_went_wrong(summary: SummaryView, i: int)
    requires
        0 <= i,
    ensures
        i < summary.failed.len() ==> sweep_report(summary).contains(
            LineView {
                level: Level::Warning,
                text: summary.failed[i].id + ": "@ + summary.failed[i].reason,
            },
        ),
        i < summary.skipped_missing.len() ==> sweep_report(summary).contains(
            LineView {
                level: Level::Warning,
                text: summary.skipped_missing[i] + ": weight file missing — skipped"@,
            },
        ),
        i < summary.unconfirmed_allocation.len() ==> sweep_report(summary).contains(
            LineView {
                level: Level::Warning,
                text: summary.unconfirmed_allocation[i].id
                    + ": recorded WITHOUT confirming the allocation finished - "@
                    + summary.unconfirmed_allocation[i].reason,
            },
        ),
        i < summary.below_weight_floor.len() ==> sweep_report(summary).contains(
            LineView {
                level: Level::Warning,
                text: summary.below_weight_floor[i].id + ": "@
                    + summary.below_weight_floor[i].reason,
            },
        ),
        i < summary.contended.len() ==> sweep_report(summary).contains(
            LineView {
                level: Level::Warning,
                text: summary.contended[i].id + ": "@ + summary.contended[i].reason,
            },
        ),
        i < summary.changed.len() ==> sweep_report(summary).contains(
            LineView {
                level: Level::Warning,
                text: summary.changed[i].id + ": measured "@ + gb2(
                    summary.changed[i].current as int,
                ) + " GB where "@ + gb2(summary.changed[i].previous as int)
                    + " GB was recorded on "@ + summary.changed[i].previous_measured_at
                    + " - the same command, so at most one of them is right"@,
            },
        ),
{
    let head = seq![sweep_report(summary)[0]];
    let failed = warnings_of(summary.failed, ": "@);
    let missing = missing_lines(summary.skipped_missing);
    let unconfirmed = warnings_of(
        summary.unconfirmed_allocation,
        ": recorded WITHOUT confirming the allocation finished - "@,
    );
    let below = warnings_of(summary.below_weight_floor, ": "@);
    let contended = warnings_of(summary.contended, ": "@);
    let changed = changed_lines(summary.changed);
    let all = sweep_report(summary);
    let sums = seq![
        head,
        head + failed,
        head + failed + missing,
        head + failed + missing + unconfirmed,
        head + failed + missing + unconfirmed + below,
        head + failed + missing + unconfirmed + below + contended,
        head + failed + missing + unconfirmed + below + contended + changed,
    ];
    if i < failed.len() {
        assert(all[sums[0].len() + i] == failed[i]);
        assert(failed[i].text == summary.failed[i].id + ": "@ + summary.failed[i].reason);
    }
    if i < missing.len() {
        assert(all[sums[1].len() + i] == missing[i]);
    }
    if i < unconfirmed.len() {
        assert(all[sums[2].len() + i] == unconfirmed[i]);
    }
    if i < below.len() {
        assert(all[sums[3].len() + i] == below[i]);
    }
    if i < contended.len() {
        assert(all[sums[4].len() + i] == contended[i]);
    }
    if i < changed.len() {
        assert(all[sums[5].len() + i] == changed[i]);
    }
}

/// A live block that matches is told as in sync, and nothing else is; whoever is left out or
/// unconfirmed is counted beside it.
pub proof fn law_only_a_matching_block_is_in_sync(drift: Drift, config_path: Seq<char>)
    ensures
        drift_report(drift, config_path)[0].level == Level::Done <==> drift.in_sync,
        !drift.in_sync ==> drift_report(drift, config_path)[0].level == Level::Warning,
        drift_report(drift, config_path).len() == 1 + (if drift.excluded@.len() > 0 {
            1int
        } else {
            0
        }) + (if drift.unconfirmed@.len() > 0 {
            1int
        } else {
            0
        }),
        drift.unconfirmed@.len() > 0 ==> drift_report(drift, config_path).last().level
            == Level::Warning,
{
}

/// Nothing is told as pruned that was not removed: files whose weights are gone are named, and
/// removed only on request.
pub proof fn law_what_would_be_pruned_is_named(gone: Seq<Seq<char>>)
    requires
        gone.len() > 0,
    ensures
        prune_report(gone, false)[0].level == Level::Warning,
        prune_report(gone, false)[0].text == "would remove "@ + digits(gone.len())
            + " measurement file(s) (weights gone): "@ + joined(gone, ", "@),
        prune_report(gone, true)[0].level == Level::Done,
        prune_report(gone, true)[0].text == "pruned "@ + digits(gone.len())
            + " measurement file(s)"@,
        prune_report(Seq::empty(), true) == prune_report(Seq::empty(), false),
{
}

/// What a sweep says of the baseline: that no pool was empty, and from where it moved.
pub proof fn law_a_sweep_tells_of_its_baseline(summary: SummaryView)
    ensures
        baseline_lines(summary).len() == (if summary.no_empty_pool {
            1int
        } else {
            0
        }) + (if summary.baseline_was is Some {
            1int
        } else {
            0
        }),
        summary.baseline_was is Some ==> baseline_lines(summary).last().text
            == "the empty pool moved: it held "@ + gb2(summary.baseline_was->0 as int)
            + " GB at the last sweep, and "@ + gb2(summary.baseline as int) + " GB now"@,
        sweep_report(summary).len() == 1 + summary.failed.len() + summary.skipped_missing.len()
            + summary.unconfirmed_allocation.len() + summary.below_weight_floor.len()
            + summary.contended.len() + summary.changed.len() + baseline_lines(summary).len() + (
        if summary.unverified_serving.len() > 0 {
            1int
        } else {
            0
        }),
        sweep_report(summary)[0].text == "baseline "@ + gb2(summary.baseline as int)
            + " GB · pool "@ + gb1(summary.detected_total as int) + " GB · measured "@ + digits(
            summary.measured.len(),
        ) + " · cached "@ + digits(summary.cached.len()) + " · failed "@ + digits(
            summary.failed.len(),
        ) + " · missing "@ + digits(summary.skipped_missing.len()),
{
}

} // verus!
