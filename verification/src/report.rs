//! The machine-readable documents: one type for each verb's `--json` result. What a person
//! is shown is made of the same values (see `commands`), so the two cannot drift apart.

use vstd::prelude::*;
use vstd::string::*;

use crate::apply::{block_in, in_sync, law_spliced_block_is_read_back, spliced, ApplyResult};
use crate::matrix::{block_text, law_blocks_start_with_the_marker, MARKER};
use crate::plan::{named_sums, sum_view, MatrixPlan, PlanView};
use crate::text::{starts, trim_both, views};
use crate::units::copied_names;

verus! {

/// A bare status.
#[derive(Debug)]
pub struct Status {
    pub status: &'static str,
}

/// `build` with neither `--apply` nor `--out`: the plan that it would print.
#[derive(Debug)]
pub struct BuildPreview {
    pub budget: i64,
    pub ceiling: i128,
    pub packs: usize,
    pub heavies: usize,
    pub sets: usize,
    pub excluded: Vec<String>,
    /// Models planned with a footprint whose allocation was never confirmed: sets that hold
    /// them may not fit.
    pub unconfirmed: Vec<String>,
    /// The host ceiling that each set was checked against; `None` where it was not.
    pub host_ceiling: Option<i128>,
    /// The largest prompt-cache cap that keeps every set under it.
    pub host_cram_gb: Option<i128>,
    /// Sets whose host cost is over that ceiling, with the cost.
    pub host_over: Vec<(String, i128)>,
    pub warnings: Vec<String>,
}

fn copied_sums(list: &Vec<(String, i128)>) -> (r: Vec<(String, i128)>)
    ensures
        named_sums(r@) == named_sums(list@),
{
    let mut r: Vec<(String, i128)> = Vec::new();
    let mut at: usize = 0;
    while at < list.len()
        invariant
            at <= list@.len(),
            r@.len() == at,
            forall|i: int| 0 <= i < at ==> (#[trigger] r@[i]).0@ == list@[i].0@,
            forall|i: int| 0 <= i < at ==> (#[trigger] r@[i]).1 == list@[i].1,
        decreases list@.len() - at,
    {
        r.push((list[at].0.clone(), list[at].1));
        at = at + 1;
    }
    proof {
        assert(named_sums(r@) =~= named_sums(list@));
    }
    r
}

impl BuildPreview {
    /// The report says what the plan says.
    pub open spec fn tells(&self, plan: PlanView) -> bool {
        &&& self.budget == plan.budget
        &&& self.ceiling == plan.ceiling
        &&& self.packs == plan.n_packs
        &&& self.heavies == plan.n_heavies
        &&& self.sets == plan.sets.len()
        &&& views(self.excluded@) == plan.excluded
        &&& views(self.unconfirmed@) == plan.unconfirmed
        &&& sum_view(self.host_ceiling) == plan.host_ceiling
        &&& sum_view(self.host_cram_gb) == plan.host_cram_gb
        &&& named_sums(self.host_over@) == plan.host_over
        &&& views(self.warnings@) == plan.warnings
    }

    /// The report of a plan.
    pub fn of(plan: &MatrixPlan) -> (r: BuildPreview)
        ensures
            r.tells(plan@),
    {
        BuildPreview {
            budget: plan.budget,
            ceiling: plan.ceiling,
            packs: plan.n_packs,
            heavies: plan.n_heavies,
            sets: plan.sets.len(),
            excluded: copied_names(&plan.excluded),
            unconfirmed: copied_names(&plan.unconfirmed),
            host_ceiling: plan.host_ceiling,
            host_cram_gb: plan.host_cram_gb,
            host_over: copied_sums(&plan.host_over),
            warnings: copied_names(&plan.warnings),
        }
    }
}

/// `build --apply`: what the splice did.
#[derive(Debug)]
pub struct BuildApplied {
    pub applied: bool,
    pub backup: String,
    pub verified: bool,
    pub note: String,
    pub packs: usize,
    pub heavies: usize,
    pub sets: usize,
    /// As in a preview: that a matrix rests on unconfirmed footprints stays visible.
    pub unconfirmed: Vec<String>,
}

impl BuildApplied {
    /// The report of a plan that was applied.
    pub fn of(plan: &MatrixPlan, result: &ApplyResult) -> (r: BuildApplied)
        ensures
            r.applied,
            r.backup@ == result.backup@,
            r.verified == result.verified,
            r.note@ == result.note@,
            r.packs == plan@.n_packs,
            r.heavies == plan@.n_heavies,
            r.sets == plan@.sets.len(),
            views(r.unconfirmed@) == plan@.unconfirmed,
    {
        BuildApplied {
            applied: true,
            backup: result.backup.clone(),
            verified: result.verified,
            note: result.note.clone(),
            packs: plan.n_packs,
            heavies: plan.n_heavies,
            sets: plan.sets.len(),
            unconfirmed: copied_names(&plan.unconfirmed),
        }
    }
}

/// `build --out`: where the block was written.
#[derive(Debug)]
pub struct BuildWrote {
    pub wrote: String,
    pub sets: usize,
}

/// `drift`: the live block beside a fresh one.
#[derive(Debug)]
pub struct Drift {
    pub in_sync: bool,
    pub has_block: bool,
    pub would_generate_sets: usize,
    pub packs: usize,
    pub heavies: usize,
    pub excluded: Vec<String>,
    pub unconfirmed: Vec<String>,
}

impl Drift {
    /// Hold the text of the live config against a fresh plan and its block: in sync where
    /// the config's block is that block, but for space around it.
    pub fn between(config_text: &str, plan: &MatrixPlan, block: &str) -> (r: Drift)
        ensures
            r.has_block == block_in(config_text@) is Some,
            r.in_sync == (block_in(config_text@) is Some && trim_both(block_in(config_text@)->0)
                == trim_both(block@)),
            r.would_generate_sets == plan@.sets.len(),
            r.packs == plan@.n_packs,
            r.heavies == plan@.n_heavies,
            views(r.excluded@) == plan@.excluded,
            views(r.unconfirmed@) == plan@.unconfirmed,
    {
        let existing = crate::apply::existing_block(config_text);
        Drift {
            in_sync: in_sync(existing.as_ref(), block),
            has_block: existing.is_some(),
            would_generate_sets: plan.sets.len(),
            packs: plan.n_packs,
            heavies: plan.n_heavies,
            excluded: copied_names(&plan.excluded),
            unconfirmed: copied_names(&plan.unconfirmed),
        }
    }
}

/// A config that a plan was just applied to is in sync with it.
pub proof fn law_an_applied_plan_is_in_sync(config: Seq<char>, plan: PlanView)
    ensures
        block_in(spliced(config, block_text(plan))) == Some(block_text(plan)),
{
    let block = block_text(plan);
    law_blocks_start_with_the_marker(plan);
    reveal_strlit("# ==== GENERATED matrix block");
    reveal_strlit("# ==== GENERATED matrix block (llama-matrix) ====");
    let marker = "# ==== GENERATED matrix block"@;
    assert(starts(block, marker)) by {
        assert(block.subrange(0, marker.len() as int) =~= block.subrange(
            0,
            MARKER@.len() as int,
        ).subrange(0, marker.len() as int));
        assert(MARKER@.subrange(0, marker.len() as int) =~= marker);
    }
    law_spliced_block_is_read_back(config, block);
}

/// `prune`: what was removed, or why there was nothing to do.
#[derive(Debug)]
pub struct Prune {
    pub removed: Vec<String>,
    pub status: Option<&'static str>,
}

/// `prune` without `--yes`: what it would remove.
#[derive(Debug)]
pub struct PrunePreview {
    pub would_remove: Vec<String>,
}

/// `setup` where there is a `llama-matrix.toml`, which is not overwritten.
#[derive(Debug)]
pub struct SetupExists {
    pub status: &'static str,
    pub path: String,
}

/// `setup` where a starter was written.
#[derive(Debug)]
pub struct SetupWritten {
    pub written: String,
    pub config: Option<String>,
    pub endpoint: String,
    pub budget: Option<i64>,
    pub gpu: Option<String>,
}

/// `configure get` and `set`: one key's effective value.
#[derive(Debug)]
pub struct ConfigValue {
    pub key: String,
    pub value: String,
}

/// `configure unset`.
#[derive(Debug)]
pub struct ConfigUnset {
    pub unset: String,
}

/// One row of `configure keys`.
#[derive(Debug)]
pub struct SettingInfo {
    pub key: &'static str,
    pub desc: &'static str,
    pub default: &'static str,
}

/// Why a run failed.
#[derive(Debug)]
pub struct ErrorReport {
    pub error: String,
}

} // verus!
