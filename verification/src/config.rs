//! A llama-swap config's roster: macros expanded, commands on one line, models classified.
//!
//! Macros and reserved substitutions are expanded before anything is derived from a
//! command: hashing or looking for an unexpanded placeholder would be wrong. A config
//! without macros expands to itself.

use indexmap::IndexMap;
use vstd::prelude::*;
use vstd::string::*;

use crate::model::{record_of, ModelRecord, RecordView};
use crate::policy::{type_declared, Policy, PolicyView};
use crate::tables::{lookup, text_table, text_under};
use crate::text::{
    join, joined, lemma_views_push, same, split_whitespace, starts, strip_prefix, views, words,
};

verus! {

// ---- placeholders -------------------------------------------------------------------------

/// Where the first `}` at or after `from` is.
pub open spec fn closing(text: Seq<char>, from: int) -> Option<int>
    decreases text.len() - from,
{
    if from >= text.len() {
        None
    } else if text[from] == '}' {
        Some(from)
    } else {
        closing(text, from + 1)
    }
}

/// Where the placeholder that starts at `at` ends: `${`, at least one character that is no
/// `}`, then a `}`.
pub open spec fn placeholder_at(text: Seq<char>, at: int) -> Option<int> {
    if at + 1 < text.len() && text[at] == '$' && text[at + 1] == '{' {
        match closing(text, at + 2) {
            Some(end) => if end > at + 2 {
                Some(end)
            } else {
                None
            },
            None => None,
        }
    } else {
        None
    }
}

/// The first placeholder from `from` on: where it starts, and where its `}` is.
pub open spec fn placeholder_from(text: Seq<char>, from: int) -> Option<(int, int)>
    decreases text.len() - from,
{
    if from >= text.len() {
        None
    } else {
        match placeholder_at(text, from) {
            Some(end) => Some((from, end)),
            None => placeholder_from(text, from + 1),
        }
    }
}

/// A text around its first placeholder: what is before it, its key, what is after it.
pub open spec fn around_placeholder(text: Seq<char>) -> Option<(Seq<char>, Seq<char>, Seq<char>)> {
    match placeholder_from(text, 0) {
        Some((at, end)) => Some(
            (text.take(at), text.subrange(at + 2, end), text.skip(end + 1)),
        ),
        None => None,
    }
}

/// `regex::Regex::captures` with the pattern `\$\{([^}]+)\}` finds the leftmost match: the
/// first placeholder, whose only group is everything up to the first `}`.
#[verifier::external_body]
fn split_placeholder(text: &str) -> (r: Option<(String, String, String)>)
    ensures
        match r {
            Some((before, key, after)) => around_placeholder(text@) == Some(
                (before@, key@, after@),
            ),
            None => around_placeholder(text@) is None,
        },
{
    let pattern = regex::Regex::new(r"\$\{([^}]+)\}").expect("a valid pattern");
    let found = pattern.captures(text)?;
    let (whole, key) = (found.get(0)?, found.get(1)?);
    Some(
        (
            text[..whole.start()].to_string(),
            key.as_str().to_string(),
            text[whole.end()..].to_string(),
        ),
    )
}

// ---- substitution -------------------------------------------------------------------------

/// A list of names with their values.
pub open spec fn pair_views(pairs: Seq<(String, String)>) -> Seq<(Seq<char>, Seq<char>)> {
    Seq::new(pairs.len(), |i: int| (pairs[i].0@, pairs[i].1@))
}

/// What placeholders may stand for: the config's macros, the environment, the model's id.
#[verifier::ext_equal]
pub struct Scope {
    pub macros: Seq<(Seq<char>, Seq<char>)>,
    pub environment: Seq<(Seq<char>, Seq<char>)>,
    pub model_id: Seq<char>,
}

/// What a placeholder with this key stands for: `env.` names a variable (nothing if it is
/// not set), `MODEL_ID` the model, anything else a macro. What is only known at launch
/// (`PORT`, `PID`) and what nobody knows stays as it is.
pub open spec fn value_of(scope: Scope, key: Seq<char>) -> Seq<char> {
    if starts(key, "env."@) {
        match lookup(scope.environment, key.skip("env."@.len() as int)) {
            Some(value) => value,
            None => Seq::empty(),
        }
    } else if key == "MODEL_ID"@ {
        scope.model_id
    } else {
        match lookup(scope.macros, key) {
            Some(value) => value,
            None => "${"@ + key + "}"@,
        }
    }
}

/// A text with each placeholder replaced by what it stands for. What a placeholder stood for
/// is not looked at again.
pub open spec fn substituted(scope: Scope, text: Seq<char>) -> Seq<char>
    decreases text.len(),
{
    match around_placeholder(text) {
        Some((before, key, after)) => if after.len() < text.len() {
            before + value_of(scope, key) + substituted(scope, after)
        } else {
            text
        },
        None => text,
    }
}

/// The first value listed for a name.
fn value_in<'a>(pairs: &'a Vec<(String, String)>, name: &str) -> (r: Option<&'a String>)
    ensures
        match r {
            Some(value) => lookup(pair_views(pairs@), name@) == Some(value@),
            None => lookup(pair_views(pairs@), name@) is None,
        },
{
    let ghost all = pair_views(pairs@);
    let mut at: usize = 0;
    proof {
        assert(all.skip(0) =~= all);
    }
    while at < pairs.len()
        invariant
            at <= pairs@.len(),
            all == pair_views(pairs@),
            lookup(all.skip(at as int), name@) == lookup(all, name@),
        decreases pairs@.len() - at,
    {
        proof {
            assert(all.skip(at as int)[0] == all[at as int]);
            assert(all.skip(at as int).skip(1) =~= all.skip(at + 1));
        }
        if same(pairs[at].0.as_str(), name) {
            return Some(&pairs[at].1);
        }
        at = at + 1;
    }
    None
}

/// The scope that the config's macros, the environment and a model's id make.
pub open spec fn scope_of(
    macros: IndexMap<String, String>,
    environment: Seq<(String, String)>,
    model_id: Seq<char>,
) -> Scope {
    Scope { macros: text_table(macros), environment: pair_views(environment), model_id }
}

/// What a placeholder with this key stands for.
fn resolve(
    key: &str,
    macros: &IndexMap<String, String>,
    environment: &Vec<(String, String)>,
    model_id: &str,
) -> (value: String)
    ensures
        value@ == value_of(scope_of(*macros, environment@, model_id@), key@),
{
    if let Some(variable) = strip_prefix(key, "env.") {
        return match value_in(environment, variable.as_str()) {
            Some(value) => value.clone(),
            None => String::new(),
        };
    }
    if same(key, "MODEL_ID") {
        return model_id.to_owned();
    }
    match text_under(macros, key) {
        Some(value) => value.clone(),
        None => "${".to_owned().concat(key).concat("}"),
    }
}

proof fn lemma_placeholder_shrinks(text: Seq<char>, from: int)
    requires
        0 <= from,
    ensures
        match placeholder_from(text, from) {
            Some((at, end)) => from <= at && at + 2 < end < text.len(),
            None => true,
        },
    decreases text.len() - from,
{
    if from < text.len() {
        lemma_closing_in_range(text, from + 2);
        lemma_placeholder_shrinks(text, from + 1);
    }
}

proof fn lemma_closing_in_range(text: Seq<char>, from: int)
    ensures
        match closing(text, from) {
            Some(end) => from <= end < text.len(),
            None => true,
        },
    decreases text.len() - from,
{
    if from < text.len() {
        lemma_closing_in_range(text, from + 1);
    }
}

/// Replace each placeholder of a text once.
fn substitute_once(
    text: &str,
    macros: &IndexMap<String, String>,
    environment: &Vec<(String, String)>,
    model_id: &str,
) -> (r: String)
    ensures
        r@ == substituted(scope_of(*macros, environment@, model_id@), text@),
{
    let ghost scope = scope_of(*macros, environment@, model_id@);
    let mut done = String::new();
    let mut rest = text.to_owned();
    proof {
        assert(done@ + substituted(scope, rest@) =~= substituted(scope, text@));
    }
    loop
        invariant
            scope == scope_of(*macros, environment@, model_id@),
            done@ + substituted(scope, rest@) == substituted(scope, text@),
        decreases rest@.len(),
    {
        proof {
            lemma_placeholder_shrinks(rest@, 0);
        }
        match split_placeholder(rest.as_str()) {
            Some((before, key, after)) => {
                let value = resolve(key.as_str(), macros, environment, model_id);
                proof {
                    assert(after@.len() < rest@.len());
                    assert(done@ + before@ + value@ + substituted(scope, after@) =~= done@ + (
                    before@ + value@ + substituted(scope, after@)));
                }
                done.append(before.as_str());
                done.append(value.as_str());
                rest = after;
            },
            None => {
                done.append(rest.as_str());
                return done;
            },
        }
    }
}

/// The passes that substitution makes at most, so that a macro that refers to itself ends.
pub const PASSES: usize = 16;

/// A text with its placeholders replaced until nothing changes, in at most `passes` passes.
pub open spec fn expanded(scope: Scope, text: Seq<char>, passes: nat) -> Seq<char>
    decreases passes,
{
    let next = substituted(scope, text);
    if passes == 0 || next == text {
        text
    } else {
        expanded(scope, next, (passes - 1) as nat)
    }
}

/// Expand llama-swap macros and reserved substitutions in a command.
pub fn expand_macros(
    text: &str,
    macros: &IndexMap<String, String>,
    environment: &Vec<(String, String)>,
    model_id: &str,
) -> (r: String)
    ensures
        r@ == expanded(scope_of(*macros, environment@, model_id@), text@, PASSES as nat),
{
    let ghost scope = scope_of(*macros, environment@, model_id@);
    let mut current = text.to_owned();
    let mut left: usize = PASSES;
    while left > 0
        invariant
            scope == scope_of(*macros, environment@, model_id@),
            expanded(scope, current@, left as nat) == expanded(scope, text@, PASSES as nat),
        decreases left,
    {
        let next = substitute_once(current.as_str(), macros, environment, model_id);
        if same(next.as_str(), current.as_str()) {
            return current;
        }
        current = next;
        left = left - 1;
    }
    current
}

/// A text without a placeholder expands to itself.
pub proof fn law_macro_free_text_expands_to_itself(scope: Scope, text: Seq<char>, passes: nat)
    requires
        placeholder_from(text, 0) is None,
    ensures
        expanded(scope, text, passes) == text,
{
}

// ---- the roster -----------------------------------------------------------------------------

/// All white space as single spaces: the command on one line.
pub fn normalize_ws(text: &str) -> (r: String)
    ensures
        r@ == joined(words(text@), " "@),
{
    join(&split_whitespace(text), " ")
}

/// A configured model: its id, and its command where it has one.
pub open spec fn entry_views(entries: Seq<(String, Option<String>)>) -> Seq<
    (Seq<char>, Option<Seq<char>>),
> {
    Seq::new(
        entries.len(),
        |i: int| (entries[i].0@, crate::model::text_view(entries[i].1)),
    )
}

/// The records of the configured models that have a command to run. One without (a selector,
/// a virtual id) is no work.
pub open spec fn roster_of(
    entries: Seq<(Seq<char>, Option<Seq<char>>)>,
    macros: Seq<(Seq<char>, Seq<char>)>,
    environment: Seq<(Seq<char>, Seq<char>)>,
) -> Seq<RecordView>
    decreases entries.len(),
{
    if entries.len() == 0 {
        Seq::empty()
    } else {
        let before = roster_of(entries.drop_last(), macros, environment);
        let (id, cmd) = entries.last();
        if cmd is Some && words(cmd->0).len() > 0 {
            let scope = Scope { macros, environment, model_id: id };
            before.push(
                record_of(id, expanded(scope, joined(words(cmd->0), " "@), PASSES as nat)),
            )
        } else {
            before
        }
    }
}

/// The roster of a config: its models in order, with their commands expanded.
pub fn parse_entries(
    entries: &Vec<(String, Option<String>)>,
    macros: &IndexMap<String, String>,
    environment: &Vec<(String, String)>,
) -> (records: Vec<ModelRecord>)
    ensures
        views(records@) == roster_of(
            entry_views(entries@),
            text_table(*macros),
            pair_views(environment@),
        ),
        records@.len() <= entries@.len(),
{
    let ghost all = entry_views(entries@);
    let ghost table = text_table(*macros);
    let ghost variables = pair_views(environment@);
    let mut records: Vec<ModelRecord> = Vec::new();
    let mut at: usize = 0;
    proof {
        assert(views(records@) =~= roster_of(all.take(0), table, variables));
    }
    while at < entries.len()
        invariant
            at <= entries@.len(),
            records@.len() <= at,
            all == entry_views(entries@),
            table == text_table(*macros),
            variables == pair_views(environment@),
            views(records@) == roster_of(all.take(at as int), table, variables),
        decreases entries@.len() - at,
    {
        let entry = &entries[at];
        proof {
            assert(all.take(at + 1).drop_last() =~= all.take(at as int));
            assert(all.take(at + 1).last() == all[at as int]);
        }
        if let Some(cmd) = &entry.1 {
            let line = split_whitespace(cmd.as_str());
            if line.len() > 0 {
                let id = entry.0.as_str();
                let joined_line = join(&line, " ");
                let full = expand_macros(joined_line.as_str(), macros, environment, id);
                let record = ModelRecord::from_expanded(id, full.as_str());
                proof {
                    lemma_views_push(records@, record);
                }
                records.push(record);
            }
        }
        at = at + 1;
    }
    proof {
        assert(all.take(at as int) =~= all);
    }
    records
}

/// A record with the type that the operator declared for its id, if any.
pub open spec fn with_declared_type(record: RecordView, policy: PolicyView) -> RecordView {
    match type_declared(policy.types, record.id) {
        Some(model_type) => RecordView { model_type, ..record },
        None => record,
    }
}

/// Give every model the type that the operator declared for it: the way out for a backend
/// whose command does not show what it is.
pub fn apply_types(records: &mut Vec<ModelRecord>, policy: &Policy)
    ensures
        views(final(records)@) == Seq::new(
            old(records)@.len(),
            |i: int| with_declared_type(old(records)@[i]@, policy@),
        ),
{
    let ghost before = records@;
    let mut at: usize = 0;
    while at < records.len()
        invariant
            before == old(records)@,
            records@.len() == before.len(),
            at <= records@.len(),
            forall|i: int|
                0 <= i < at ==> #[trigger] records@[i]@ == with_declared_type(before[i]@, policy@),
            forall|i: int| at <= i < records@.len() ==> #[trigger] records@[i] == before[i],
        decreases records@.len() - at,
    {
        if let Some(model_type) = policy.declared_type(records[at].id.as_str()) {
            let record = &records[at];
            let typed = ModelRecord {
                id: record.id.clone(),
                cmd: record.cmd.clone(),
                model_type,
                primary_file: crate::cache::copied_text(&record.primary_file),
                param_hash: record.param_hash.clone(),
            };
            records.set(at, typed);
        }
        at = at + 1;
    }
    proof {
        assert(views(records@) =~= Seq::new(
            before.len(),
            |i: int| with_declared_type(before[i]@, policy@),
        ));
    }
}

// ---- what placeholders stand for ----------------------------------------------------------

/// A variable of the environment, by its name, or nothing where it is not set; the model's own
/// id; a macro of the config; and what nobody knows stays as it is written.
pub proof fn law_what_a_placeholder_stands_for(scope: Scope, key: Seq<char>)
    ensures
        value_of(scope, "env."@ + key) == match lookup(scope.environment, key) {
            Some(value) => value,
            None => Seq::empty(),
        },
        value_of(scope, "MODEL_ID"@) == scope.model_id,
        !starts(key, "env."@) && key != "MODEL_ID"@ && lookup(scope.macros, key) is Some
            ==> value_of(scope, key) == lookup(scope.macros, key)->0,
        !starts(key, "env."@) && key != "MODEL_ID"@ && lookup(scope.macros, key) is None
            ==> value_of(scope, key) == "${"@ + key + "}"@,
{
    reveal_strlit("env.");
    reveal_strlit("MODEL_ID");
    let named = "env."@ + key;
    assert(named.subrange(0, "env."@.len() as int) =~= "env."@);
    assert(named.skip("env."@.len() as int) =~= key);
    assert("MODEL_ID"@.subrange(0, 4)[0] == 'M');
    assert("env."@[0] == 'e');
}

proof fn lemma_closing(text: Seq<char>, from: int, at: int)
    requires
        0 <= from <= at < text.len(),
        text[at] == '}',
        forall|i: int| from <= i < at ==> text[i] != '}',
    ensures
        closing(text, from) == Some(at),
    decreases at - from,
{
    if from < at {
        lemma_closing(text, from + 1, at);
    }
}

proof fn lemma_first_placeholder(text: Seq<char>, from: int, at: int)
    requires
        0 <= from <= at < text.len(),
        placeholder_at(text, at) is Some,
        forall|i: int| from <= i < at ==> text[i] != '$',
    ensures
        placeholder_from(text, from) == Some((at, placeholder_at(text, at)->0)),
    decreases at - from,
{
    if from < at {
        lemma_first_placeholder(text, from + 1, at);
    }
}

/// A placeholder is replaced where it stands, and the text around it stays: what is before it as
/// it is, what is after it with its own placeholders replaced.
pub proof fn law_a_placeholder_is_replaced_where_it_stands(
    scope: Scope,
    before: Seq<char>,
    key: Seq<char>,
    after: Seq<char>,
)
    requires
        key.len() > 0,
        forall|i: int| 0 <= i < before.len() ==> before[i] != '$',
        forall|i: int| 0 <= i < key.len() ==> key[i] != '}',
    ensures
        substituted(scope, before + "${"@ + key + "}"@ + after) == before + value_of(scope, key)
            + substituted(scope, after),
{
    reveal_strlit("${");
    reveal_strlit("}");
    let text = before + "${"@ + key + "}"@ + after;
    let at = before.len() as int;
    let end = at + 2 + key.len();
    assert(text[at] == '$' && text[at + 1] == '{');
    assert(text[end] == '}');
    assert forall|i: int| at + 2 <= i < end implies text[i] != '}' by {
        assert(text[i] == key[i - at - 2]);
    }
    lemma_closing(text, at + 2, end);
    assert(placeholder_at(text, at) == Some(end));
    assert forall|i: int| 0 <= i < at implies text[i] != '$' by {
        assert(text[i] == before[i]);
    }
    lemma_first_placeholder(text, 0, at);
    assert(text.take(at) =~= before);
    assert(text.subrange(at + 2, end) =~= key);
    assert(text.skip(end + 1) =~= after);
}

/// A text without a dollar sign is left alone.
pub proof fn law_plain_text_is_left_alone(scope: Scope, text: Seq<char>, passes: nat)
    requires
        forall|i: int| 0 <= i < text.len() ==> text[i] != '$',
    ensures
        expanded(scope, text, passes) == text,
{
    lemma_no_placeholder(text, 0);
    law_macro_free_text_expands_to_itself(scope, text, passes);
}

proof fn lemma_no_placeholder(text: Seq<char>, from: int)
    requires
        0 <= from,
        forall|i: int| 0 <= i < text.len() ==> text[i] != '$',
    ensures
        placeholder_from(text, from) is None,
    decreases text.len() - from,
{
    if from < text.len() {
        lemma_no_placeholder(text, from + 1);
    }
}

/// A macro whose value holds no placeholder is expanded in a command.
pub proof fn law_a_macro_is_expanded(
    scope: Scope,
    before: Seq<char>,
    key: Seq<char>,
    after: Seq<char>,
    value: Seq<char>,
)
    requires
        key.len() > 0,
        forall|i: int| 0 <= i < before.len() ==> before[i] != '$',
        forall|i: int| 0 <= i < key.len() ==> key[i] != '}',
        forall|i: int| 0 <= i < after.len() ==> after[i] != '$',
        forall|i: int| 0 <= i < value.len() ==> value[i] != '$',
        !starts(key, "env."@),
        key != "MODEL_ID"@,
        lookup(scope.macros, key) == Some(value),
    ensures
        expanded(scope, before + "${"@ + key + "}"@ + after, PASSES as nat) == before + value
            + after,
{
    reveal_strlit("${");
    let text = before + "${"@ + key + "}"@ + after;
    let result = before + value + after;
    law_a_placeholder_is_replaced_where_it_stands(scope, before, key, after);
    lemma_no_placeholder(after, 0);
    assert(substituted(scope, after) == after);
    assert(substituted(scope, text) == result);
    assert forall|i: int| 0 <= i < result.len() implies result[i] != '$' by {
        if i < before.len() {
            assert(result[i] == before[i]);
        } else if i < before.len() + value.len() {
            assert(result[i] == value[i - before.len()]);
        } else {
            assert(result[i] == after[i - before.len() - value.len()]);
        }
    }
    assert(text[before.len() as int] == '$');
    if result == text {
        assert(result[before.len() as int] != '$');
    }
    law_plain_text_is_left_alone(scope, result, (PASSES - 1) as nat);
}

/// The roster has a record for every configured model with a command to run, under its own id
/// and in order, and none for the others.
pub proof fn law_every_model_with_a_command_is_in_the_roster(
    entries: Seq<(Seq<char>, Option<Seq<char>>)>,
    macros: Seq<(Seq<char>, Seq<char>)>,
    environment: Seq<(Seq<char>, Seq<char>)>,
    id: Seq<char>,
)
    ensures
        (exists|k: int|
            0 <= k < roster_of(entries, macros, environment).len() && (#[trigger] roster_of(
                entries,
                macros,
                environment,
            )[k]).id == id) <==> exists|i: int|
            0 <= i < entries.len() && (#[trigger] entries[i]).0 == id && entries[i].1 is Some
                && words(entries[i].1->0).len() > 0,
    decreases entries.len(),
{
    if entries.len() > 0 {
        let fewer = entries.drop_last();
        let before = roster_of(fewer, macros, environment);
        let after = roster_of(entries, macros, environment);
        let last = entries.len() - 1;
        law_every_model_with_a_command_is_in_the_roster(fewer, macros, environment, id);
        if exists|k: int| 0 <= k < before.len() && (#[trigger] before[k]).id == id {
            let k = choose|k: int| 0 <= k < before.len() && (#[trigger] before[k]).id == id;
            assert(after[k].id == id);
            let i = choose|i: int|
                0 <= i < fewer.len() && (#[trigger] fewer[i]).0 == id && fewer[i].1 is Some
                    && words(fewer[i].1->0).len() > 0;
            assert(entries[i].0 == id);
        }
        if entries[last].0 == id && entries[last].1 is Some && words(entries[last].1->0).len() > 0 {
            assert(after[before.len() as int].id == id);
        }
        if exists|k: int| 0 <= k < after.len() && (#[trigger] after[k]).id == id {
            let k = choose|k: int| 0 <= k < after.len() && (#[trigger] after[k]).id == id;
            if k < before.len() {
                assert(before[k].id == id);
            } else {
                assert(entries[last].0 == id);
            }
        }
        if exists|i: int|
            0 <= i < entries.len() && (#[trigger] entries[i]).0 == id && entries[i].1 is Some
                && words(entries[i].1->0).len() > 0 {
            let i = choose|i: int|
                0 <= i < entries.len() && (#[trigger] entries[i]).0 == id && entries[i].1 is Some
                    && words(entries[i].1->0).len() > 0;
            if i < last {
                assert(fewer[i].0 == id);
            }
        }
    }
}

/// A declared type changes a record's type and nothing else; without one nothing changes.
pub proof fn law_a_declared_type_changes_only_the_type(record: RecordView, policy: PolicyView)
    ensures
        with_declared_type(record, policy).id == record.id,
        with_declared_type(record, policy).cmd == record.cmd,
        with_declared_type(record, policy).primary_file == record.primary_file,
        with_declared_type(record, policy).param_hash == record.param_hash,
        type_declared(policy.types, record.id) is Some ==> with_declared_type(
            record,
            policy,
        ).model_type == type_declared(policy.types, record.id)->0,
        type_declared(policy.types, record.id) is None ==> with_declared_type(record, policy)
            == record,
{
}

/// Macros within macros are expanded, sixteen levels deep.
pub proof fn law_sixteen_levels_are_expanded(scope: Scope, levels: Seq<Seq<char>>)
    requires
        1 <= levels.len() <= 17,
        forall|i: int|
            0 <= i < levels.len() - 1 ==> substituted(scope, #[trigger] levels[i]) == levels[i + 1]
                && levels[i + 1] != levels[i],
        levels.len() == 17 || substituted(scope, levels.last()) == levels.last(),
    ensures
        expanded(scope, levels[0], PASSES as nat) == levels.last(),
{
    lemma_levels(scope, levels, 16);
}

proof fn lemma_levels(scope: Scope, levels: Seq<Seq<char>>, passes: nat)
    requires
        1 <= levels.len() <= passes + 1,
        forall|i: int|
            0 <= i < levels.len() - 1 ==> substituted(scope, #[trigger] levels[i]) == levels[i + 1]
                && levels[i + 1] != levels[i],
        levels.len() == passes + 1 || substituted(scope, levels.last()) == levels.last(),
    ensures
        expanded(scope, levels[0], passes) == levels.last(),
    decreases passes,
{
    if levels.len() > 1 {
        let rest = levels.skip(1);
        assert(substituted(scope, levels[0]) == levels[1]);
        assert forall|i: int| 0 <= i < rest.len() - 1 implies substituted(scope, #[trigger] rest[i])
            == rest[i + 1] && rest[i + 1] != rest[i] by {
            assert(substituted(scope, levels[i + 1]) == levels[i + 2]);
        }
        lemma_levels(scope, rest, (passes - 1) as nat);
    }
}

/// A record is that of the model's command on one line, with its placeholders expanded.
pub proof fn law_a_record_has_its_expanded_command(
    entries: Seq<(Seq<char>, Option<Seq<char>>)>,
    macros: Seq<(Seq<char>, Seq<char>)>,
    environment: Seq<(Seq<char>, Seq<char>)>,
    i: int,
)
    requires
        0 <= i < entries.len(),
        entries[i].1 is Some,
        words(entries[i].1->0).len() > 0,
    ensures
        roster_of(entries, macros, environment).contains(
            record_of(
                entries[i].0,
                expanded(
                    Scope { macros, environment, model_id: entries[i].0 },
                    joined(words(entries[i].1->0), " "@),
                    16,
                ),
            ),
        ),
    decreases entries.len(),
{
    let fewer = entries.drop_last();
    let before = roster_of(fewer, macros, environment);
    let after = roster_of(entries, macros, environment);
    let record = record_of(
        entries[i].0,
        expanded(
            Scope { macros, environment, model_id: entries[i].0 },
            joined(words(entries[i].1->0), " "@),
            16,
        ),
    );
    if i < fewer.len() {
        law_a_record_has_its_expanded_command(fewer, macros, environment, i);
        let k = choose|k: int| 0 <= k < before.len() && before[k] == record;
        assert(after[k] == record);
    } else {
        assert(after[before.len() as int] == record);
    }
}

/// The roster is no longer than the config.
pub proof fn law_a_roster_is_no_longer_than_its_config(
    entries: Seq<(Seq<char>, Option<Seq<char>>)>,
    macros: Seq<(Seq<char>, Seq<char>)>,
    environment: Seq<(Seq<char>, Seq<char>)>,
)
    ensures
        roster_of(entries, macros, environment).len() <= entries.len(),
    decreases entries.len(),
{
    if entries.len() > 0 {
        law_a_roster_is_no_longer_than_its_config(entries.drop_last(), macros, environment);
    }
}

/// Empty braces are no placeholder.
pub proof fn law_empty_braces_are_left_alone(scope: Scope, before: Seq<char>, after: Seq<char>)
    requires
        forall|i: int| 0 <= i < before.len() ==> before[i] != '$',
        forall|i: int| 0 <= i < after.len() ==> after[i] != '$',
    ensures
        expanded(scope, before + "${}"@ + after, PASSES as nat) == before + "${}"@ + after,
{
    reveal_strlit("${}");
    let text = before + "${}"@ + after;
    let at = before.len() as int;
    assert(text[at] == '$' && text[at + 1] == '{' && text[at + 2] == '}');
    lemma_closing(text, at + 2, at + 2);
    assert(placeholder_at(text, at) is None);
    assert forall|i: int| 0 <= i < text.len() && i != at implies #[trigger] text[i] != '$' by {
        if i < at {
            assert(text[i] == before[i]);
        } else if i >= at + 3 {
            assert(text[i] == after[i - at - 3]);
        }
    }
    lemma_none_but_at(text, 0, at);
    law_macro_free_text_expands_to_itself(scope, text, PASSES as nat);
}

proof fn lemma_none_but_at(text: Seq<char>, from: int, at: int)
    requires
        0 <= from,
        placeholder_at(text, at) is None,
        forall|i: int| 0 <= i < text.len() && i != at ==> #[trigger] text[i] != '$',
    ensures
        placeholder_from(text, from) is None,
    decreases text.len() - from,
{
    if from < text.len() {
        lemma_none_but_at(text, from + 1, at);
    }
}

} // verus!
