//! Render a plan to llama-swap's `matrix:` block, headed by the marker that `apply`
//! anchors its splice on.

use vstd::prelude::*;
use vstd::string::*;

use crate::number::{count_text, digits, gb1, gb1_text, gb2, gb2_text, number_text};
use crate::plan::{MatrixPlan, PlanView, SetView};
use crate::text::{join, joined, lemma_views_push, starts, views};

verus! {

/// The line every generated block starts with.
pub const MARKER: &'static str = "# ==== GENERATED matrix block (llama-matrix) ====";

pub open spec fn budget_line(plan: PlanView) -> Seq<char> {
    "# budget "@ + gb1(plan.budget) + " GB | baseline "@ + gb2(plan.baseline) + " | margin "@
        + gb1(plan.margin) + " | ceiling "@ + gb1(plan.ceiling)
}

pub open spec fn policy_line(plan: PlanView) -> Seq<char> {
    "# policy: max flexibility, never OOM. "@ + digits(plan.n_packs) + " packs, "@ + digits(
        plan.n_heavies,
    ) + " heavies, aux rides along ("@ + gb1(plan.aux_cost) + " GB)."@
}

pub open spec fn warning_lines(plan: PlanView) -> Seq<Seq<char>> {
    Seq::new(plan.warnings.len(), |i: int| "# WARNING: "@ + plan.warnings[i])
}

pub open spec fn excluded_lines(plan: PlanView) -> Seq<Seq<char>> {
    if plan.excluded.len() > 0 {
        seq!["# NOT measured, excluded: "@ + joined(plan.excluded, ", "@)]
    } else {
        Seq::empty()
    }
}

pub open spec fn var_lines(plan: PlanView) -> Seq<Seq<char>> {
    if plan.vars.len() > 0 {
        seq!["  vars:"@] + Seq::new(
            plan.vars.len(),
            |i: int| "    "@ + plan.vars[i].0 + ": "@ + plan.vars[i].1,
        )
    } else {
        Seq::empty()
    }
}

/// A cost in decimal. Costs are never negative.
pub open spec fn cost_text(cost: int) -> Seq<char> {
    digits(cost as nat)
}

pub open spec fn cost_lines(plan: PlanView) -> Seq<Seq<char>> {
    if plan.evict_costs.len() > 0 {
        seq![
            "  evict_costs:   # higher = costlier to evict = prefer to keep; set in [evict_costs] (llama-matrix.toml)"@,
        ] + Seq::new(
            plan.evict_costs.len(),
            |i: int| "    "@ + plan.evict_costs[i].0 + ": "@ + cost_text(plan.evict_costs[i].1),
        )
    } else {
        Seq::empty()
    }
}

pub open spec fn set_line(set: SetView) -> Seq<char> {
    "    "@ + set.name + ": \""@ + set.expr + "\"   # "@ + set.comment
}

pub open spec fn set_lines(plan: PlanView) -> Seq<Seq<char>> {
    Seq::new(plan.sets.len(), |i: int| set_line(plan.sets[i]))
}

/// The lines of the block that declares a plan.
pub open spec fn block_lines(plan: PlanView) -> Seq<Seq<char>> {
    seq![MARKER@, budget_line(plan), policy_line(plan)] + warning_lines(plan) + excluded_lines(plan)
        + seq!["matrix:"@] + var_lines(plan) + cost_lines(plan) + seq!["  sets:"@] + set_lines(plan)
}

/// The block that declares a plan: its lines, each ended by a newline.
pub open spec fn block_text(plan: PlanView) -> Seq<char> {
    joined(block_lines(plan), "\n"@).push('\n')
}

fn push_line(lines: &mut Vec<String>, line: String)
    ensures
        views(final(lines)@) == views(old(lines)@).push(line@),
{
    proof {
        lemma_views_push(lines@, line);
    }
    lines.push(line);
}

fn push_header(lines: &mut Vec<String>, plan: &MatrixPlan)
    ensures
        views(final(lines)@) == views(old(lines)@) + seq![
            MARKER@,
            budget_line(plan@),
            policy_line(plan@),
        ],
{
    let ghost before = views(lines@);
    push_line(lines, MARKER.to_owned());
    push_line(
        lines,
        "# budget ".to_owned().concat(gb1_text(plan.budget as i128).as_str()).concat(
            " GB | baseline ",
        ).concat(gb2_text(plan.baseline as i128).as_str()).concat(" | margin ").concat(
            gb1_text(plan.margin as i128).as_str(),
        ).concat(" | ceiling ").concat(gb1_text(plan.ceiling).as_str()),
    );
    push_line(
        lines,
        "# policy: max flexibility, never OOM. ".to_owned().concat(
            count_text(plan.n_packs).as_str(),
        ).concat(" packs, ").concat(count_text(plan.n_heavies).as_str()).concat(
            " heavies, aux rides along (",
        ).concat(gb1_text(plan.aux_cost).as_str()).concat(" GB)."),
    );
    proof {
        assert(views(lines@) =~= before + seq![
            MARKER@,
            budget_line(plan@),
            policy_line(plan@),
        ]);
    }
}

fn push_warnings(lines: &mut Vec<String>, plan: &MatrixPlan)
    ensures
        views(final(lines)@) == views(old(lines)@) + warning_lines(plan@),
{
    let ghost before = views(lines@);
    let ghost wanted = warning_lines(plan@);
    let mut at: usize = 0;
    proof {
        assert(before + wanted.take(0) =~= before);
    }
    while at < plan.warnings.len()
        invariant
            at <= plan.warnings@.len(),
            before == views(old(lines)@),
            wanted == warning_lines(plan@),
            views(lines@) == before + wanted.take(at as int),
        decreases plan.warnings@.len() - at,
    {
        push_line(lines, "# WARNING: ".to_owned().concat(plan.warnings[at].as_str()));
        at = at + 1;
        proof {
            assert(before + wanted.take(at as int) =~= (before + wanted.take(at - 1)).push(
                wanted[at - 1],
            ));
        }
    }
    proof {
        assert(wanted.take(at as int) =~= wanted);
    }
}

fn push_vars(lines: &mut Vec<String>, plan: &MatrixPlan)
    ensures
        views(final(lines)@) == views(old(lines)@) + var_lines(plan@),
{
    let ghost before = views(lines@);
    let ghost wanted = var_lines(plan@);
    if plan.vars.len() == 0 {
        proof {
            assert(before + wanted =~= before);
        }
        return ;
    }
    push_line(lines, "  vars:".to_owned());
    let mut at: usize = 0;
    proof {
        assert(views(lines@) =~= before + wanted.take(1));
    }
    while at < plan.vars.len()
        invariant
            plan.vars@.len() > 0,
            at <= plan.vars@.len(),
            before == views(old(lines)@),
            wanted == var_lines(plan@),
            views(lines@) == before + wanted.take(at + 1),
        decreases plan.vars@.len() - at,
    {
        push_line(
            lines,
            "    ".to_owned().concat(plan.vars[at].0.as_str()).concat(": ").concat(
                plan.vars[at].1.as_str(),
            ),
        );
        at = at + 1;
        proof {
            assert(before + wanted.take(at + 1) =~= (before + wanted.take(at as int)).push(
                wanted[at as int],
            ));
        }
    }
    proof {
        assert(wanted.take(at + 1) =~= wanted);
    }
}

fn push_costs(lines: &mut Vec<String>, plan: &MatrixPlan)
    ensures
        views(final(lines)@) == views(old(lines)@) + cost_lines(plan@),
{
    let ghost before = views(lines@);
    let ghost wanted = cost_lines(plan@);
    if plan.evict_costs.len() == 0 {
        proof {
            assert(before + wanted =~= before);
        }
        return ;
    }
    push_line(
        lines,
        "  evict_costs:   # higher = costlier to evict = prefer to keep; set in [evict_costs] (llama-matrix.toml)".to_owned(),
    );
    let mut at: usize = 0;
    proof {
        assert(views(lines@) =~= before + wanted.take(1));
    }
    while at < plan.evict_costs.len()
        invariant
            plan.evict_costs@.len() > 0,
            at <= plan.evict_costs@.len(),
            before == views(old(lines)@),
            wanted == cost_lines(plan@),
            views(lines@) == before + wanted.take(at + 1),
        decreases plan.evict_costs@.len() - at,
    {
        push_line(
            lines,
            "    ".to_owned().concat(plan.evict_costs[at].0.as_str()).concat(": ").concat(
                number_text(plan.evict_costs[at].1 as u128).as_str(),
            ),
        );
        at = at + 1;
        proof {
            assert(before + wanted.take(at + 1) =~= (before + wanted.take(at as int)).push(
                wanted[at as int],
            ));
        }
    }
    proof {
        assert(wanted.take(at + 1) =~= wanted);
    }
}

fn push_sets(lines: &mut Vec<String>, plan: &MatrixPlan)
    ensures
        views(final(lines)@) == views(old(lines)@) + set_lines(plan@),
{
    let ghost before = views(lines@);
    let ghost wanted = set_lines(plan@);
    let mut at: usize = 0;
    proof {
        assert(before + wanted.take(0) =~= before);
    }
    while at < plan.sets.len()
        invariant
            at <= plan.sets@.len(),
            before == views(old(lines)@),
            wanted == set_lines(plan@),
            views(lines@) == before + wanted.take(at as int),
        decreases plan.sets@.len() - at,
    {
        let set = &plan.sets[at];
        proof {
            assert(wanted[at as int] == set_line(set@));
        }
        push_line(
            lines,
            "    ".to_owned().concat(set.name.as_str()).concat(": \"").concat(
                set.expr.as_str(),
            ).concat("\"   # ").concat(set.comment.as_str()),
        );
        at = at + 1;
        proof {
            assert(before + wanted.take(at as int) =~= (before + wanted.take(at - 1)).push(
                wanted[at - 1],
            ));
        }
    }
    proof {
        assert(wanted.take(at as int) =~= wanted);
    }
}

/// Render the plan to the full `matrix:` block (ends with a newline).
pub fn render(plan: &MatrixPlan) -> (text: String)
    ensures
        text@ == block_text(plan@),
{
    let mut lines: Vec<String> = Vec::new();
    proof {
        assert(views(lines@) =~= Seq::<Seq<char>>::empty());
    }
    push_header(&mut lines, plan);
    push_warnings(&mut lines, plan);
    let ghost so_far = views(lines@);
    if plan.excluded.len() > 0 {
        push_line(
            &mut lines,
            "# NOT measured, excluded: ".to_owned().concat(join(&plan.excluded, ", ").as_str()),
        );
    }
    push_line(&mut lines, "matrix:".to_owned());
    proof {
        assert(views(lines@) =~= so_far + excluded_lines(plan@) + seq!["matrix:"@]);
    }
    push_vars(&mut lines, plan);
    push_costs(&mut lines, plan);
    push_line(&mut lines, "  sets:".to_owned());
    push_sets(&mut lines, plan);
    proof {
        assert(views(lines@) =~= block_lines(plan@));
    }
    let mut text = join(&lines, "\n");
    text.push('\n');
    text
}

/// Every block starts with the marker and ends with a newline.
pub proof fn law_blocks_start_with_the_marker(plan: PlanView)
    ensures
        starts(block_text(plan), MARKER@),
        block_text(plan).last() == '\n',
{
    let lines = block_lines(plan);
    assert(lines[0] == MARKER@);
    lemma_joined_starts(lines, "\n"@);
    let text = joined(lines, "\n"@);
    assert(block_text(plan).subrange(0, MARKER@.len() as int) =~= text.subrange(
        0,
        MARKER@.len() as int,
    ));
}

proof fn lemma_joined_starts(parts: Seq<Seq<char>>, separator: Seq<char>)
    requires
        parts.len() > 0,
    ensures
        starts(joined(parts, separator), parts[0]),
    decreases parts.len(),
{
    let text = joined(parts, separator);
    if parts.len() == 1 {
        assert(text.subrange(0, parts[0].len() as int) =~= parts[0]);
    } else {
        let fewer = parts.drop_last();
        lemma_joined_starts(fewer, separator);
        let before = joined(fewer, separator);
        assert(fewer[0] == parts[0]);
        assert(text.subrange(0, parts[0].len() as int) =~= before.subrange(
            0,
            parts[0].len() as int,
        ));
    }
}

// ---- what a block holds -------------------------------------------------------------------

/// A line is one of a block's.
proof fn lemma_is_a_line(parts: Seq<Seq<Seq<char>>>, p: int, k: int, lines: Seq<Seq<char>>)
    requires
        0 <= p < parts.len(),
        0 <= k < parts[p].len(),
        lines == concat(parts),
    ensures
        lines.contains(parts[p][k]),
    decreases parts.len(),
{
    let fewer = parts.drop_last();
    if p < parts.len() - 1 {
        lemma_is_a_line(fewer, p, k, concat(fewer));
        let i = choose|i: int| 0 <= i < concat(fewer).len() && concat(fewer)[i] == parts[p][k];
        assert(lines[i] == parts[p][k]);
    } else {
        assert(lines[concat(fewer).len() + k] == parts[p][k]);
    }
}

/// Lists one behind the other.
spec fn concat(parts: Seq<Seq<Seq<char>>>) -> Seq<Seq<char>>
    decreases parts.len(),
{
    if parts.len() == 0 {
        Seq::empty()
    } else {
        concat(parts.drop_last()) + parts.last()
    }
}

spec fn parts_of(plan: PlanView) -> Seq<Seq<Seq<char>>> {
    seq![
        seq![MARKER@, budget_line(plan), policy_line(plan)],
        warning_lines(plan),
        excluded_lines(plan),
        seq!["matrix:"@],
        var_lines(plan),
        cost_lines(plan),
        seq!["  sets:"@],
        set_lines(plan),
    ]
}

proof fn lemma_parts(plan: PlanView)
    ensures
        concat(parts_of(plan)) == block_lines(plan),
{
    let parts = parts_of(plan);
    reveal_with_fuel(concat, 9);
    assert(parts.take(0) =~= Seq::<Seq<Seq<char>>>::empty());
    assert(parts.take(1).drop_last() =~= parts.take(0));
    assert(parts.take(2).drop_last() =~= parts.take(1));
    assert(parts.take(3).drop_last() =~= parts.take(2));
    assert(parts.take(4).drop_last() =~= parts.take(3));
    assert(parts.take(5).drop_last() =~= parts.take(4));
    assert(parts.take(6).drop_last() =~= parts.take(5));
    assert(parts.take(7).drop_last() =~= parts.take(6));
    assert(parts.drop_last() =~= parts.take(7));
    assert(concat(parts) =~= block_lines(plan));
}

/// Every declared set is in the block with its name, its expression and its comment.
pub proof fn law_every_set_is_rendered(plan: PlanView, i: int)
    requires
        0 <= i < plan.sets.len(),
    ensures
        block_lines(plan).contains(
            "    "@ + plan.sets[i].name + ": \""@ + plan.sets[i].expr + "\"   # "@
                + plan.sets[i].comment,
        ),
{
    lemma_parts(plan);
    lemma_is_a_line(parts_of(plan), 7, i, block_lines(plan));
    assert(set_lines(plan)[i] == set_line(plan.sets[i]));
}

/// Every eviction cost is in the block beside its model.
pub proof fn law_every_cost_is_rendered(plan: PlanView, i: int)
    requires
        0 <= i < plan.evict_costs.len(),
        plan.evict_costs[i].1 >= 0,
    ensures
        block_lines(plan).contains(
            "    "@ + plan.evict_costs[i].0 + ": "@ + digits(plan.evict_costs[i].1 as nat),
        ),
{
    lemma_parts(plan);
    lemma_is_a_line(parts_of(plan), 5, i + 1, block_lines(plan));
    assert(cost_lines(plan)[i + 1] == "    "@ + plan.evict_costs[i].0 + ": "@ + cost_text(
        plan.evict_costs[i].1,
    ));
}

/// Every warning is in the block as a comment, and so are those who are left out.
pub proof fn law_every_warning_is_rendered(plan: PlanView, i: int)
    ensures
        0 <= i < plan.warnings.len() ==> block_lines(plan).contains(
            "# WARNING: "@ + plan.warnings[i],
        ),
        plan.excluded.len() > 0 ==> block_lines(plan).contains(
            "# NOT measured, excluded: "@ + joined(plan.excluded, ", "@),
        ),
        block_lines(plan).contains("matrix:"@),
        block_lines(plan).contains("  sets:"@),
{
    lemma_parts(plan);
    if 0 <= i < plan.warnings.len() {
        lemma_is_a_line(parts_of(plan), 1, i, block_lines(plan));
        assert(warning_lines(plan)[i] == "# WARNING: "@ + plan.warnings[i]);
    }
    if plan.excluded.len() > 0 {
        lemma_is_a_line(parts_of(plan), 2, 0, block_lines(plan));
    }
    lemma_is_a_line(parts_of(plan), 3, 0, block_lines(plan));
    lemma_is_a_line(parts_of(plan), 6, 0, block_lines(plan));
}

/// A block begins with its marker, what it was planned against and what it holds, and has no
/// lines but these, one for each warning, variable, cost and set, one for those who are left out,
/// and the headings.
pub proof fn law_a_block_states_what_it_was_planned_against(plan: PlanView)
    ensures
        block_lines(plan)[0] == "# ==== GENERATED matrix block (llama-matrix) ===="@,
        block_lines(plan)[1] == "# budget "@ + gb1(plan.budget) + " GB | baseline "@ + gb2(
            plan.baseline,
        ) + " | margin "@ + gb1(plan.margin) + " | ceiling "@ + gb1(plan.ceiling),
        block_lines(plan)[2] == "# policy: max flexibility, never OOM. "@ + digits(plan.n_packs)
            + " packs, "@ + digits(plan.n_heavies) + " heavies, aux rides along ("@ + gb1(
            plan.aux_cost,
        ) + " GB)."@,
        block_lines(plan).len() == 5 + plan.warnings.len() + plan.sets.len() + (
        if plan.excluded.len() > 0 {
            1int
        } else {
            0
        }) + (if plan.evict_costs.len() > 0 {
            plan.evict_costs.len() + 1
        } else {
            0
        }) + (if plan.vars.len() > 0 {
            plan.vars.len() + 1
        } else {
            0
        }),
{
}

} // verus!
