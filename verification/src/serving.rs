//! What llama-swap says it is running, and whether it is the command that was hashed.
//!
//! A footprint is filed under the hash of the config's command, but the load runs through
//! llama-swap, which serves whatever config it last loaded. Where the two disagree the
//! footprint would be filed under a command that never ran, and never be corrected.

use vstd::prelude::*;
use vstd::string::*;

use crate::cache::{law_stored_entries_read_back, table_with};
use crate::model::{text_view, ModelRecord, ModelType, RecordView};
use crate::number::{count_text, digits, number_text, parse_u64, unsigned};
use crate::param_hash::{memory_cmd, memory_text};
use crate::tables::lookup;
use crate::text::{
    contains, has_name, join, joined, lemma_views_push, occurs_in, same, split_whitespace, starts,
    starts_with, views, words,
};

verus! {

// ---- JSON ---------------------------------------------------------------------------------

/// The string that a JSON document holds at a JSON pointer.
pub uninterp spec fn json_text_at(document: Seq<char>, pointer: Seq<char>) -> Option<Seq<char>>;

/// The unsigned number that a JSON document holds at a JSON pointer.
pub uninterp spec fn json_number_at(document: Seq<char>, pointer: Seq<char>) -> Option<u64>;

/// The length of the array that a JSON document holds at a JSON pointer.
pub uninterp spec fn json_length_at(document: Seq<char>, pointer: Seq<char>) -> Option<usize>;

/// `serde_json::from_str`, `Value::pointer` and `Value::as_str`: a string of the document, or
/// `None` where the text is no JSON, the pointer leads nowhere, or to something else. A
/// function of the two texts alone.
#[verifier::external_body]
fn json_text(document: &str, pointer: &str) -> (r: Option<String>)
    ensures
        text_view(r) == json_text_at(document@, pointer@),
{
    let value: serde_json::Value = serde_json::from_str(document).ok()?;
    value.pointer(pointer)?.as_str().map(|text| text.to_string())
}

/// `serde_json::from_str`, `Value::pointer` and `Value::as_u64`: a number of the document, or
/// `None` as for a string. A function of the two texts alone.
#[verifier::external_body]
fn json_number(document: &str, pointer: &str) -> (r: Option<u64>)
    ensures
        r == json_number_at(document@, pointer@),
{
    let value: serde_json::Value = serde_json::from_str(document).ok()?;
    value.pointer(pointer)?.as_u64()
}

/// `serde_json::from_str`, `Value::pointer` and `Value::as_array`: the length of an array of
/// the document, or `None` as for a string. A function of the two texts alone.
#[verifier::external_body]
fn json_length(document: &str, pointer: &str) -> (r: Option<usize>)
    ensures
        r == json_length_at(document@, pointer@),
{
    let value: serde_json::Value = serde_json::from_str(document).ok()?;
    value.pointer(pointer)?.as_array().map(|array| array.len())
}

// ---- what is running ------------------------------------------------------------------------

/// What llama-swap says about a model it has loaded.
#[derive(Debug)]
pub struct Running {
    /// `ready`, `starting`, `stopping` and so on; empty when it says nothing.
    pub state: String,
    /// The command it launched, when it reports one.
    pub cmd: Option<String>,
}

/// What a running entry says.
#[verifier::ext_equal]
pub struct RunningView {
    pub state: Seq<char>,
    pub cmd: Option<Seq<char>>,
}

impl View for Running {
    type V = RunningView;

    open spec fn view(&self) -> RunningView {
        RunningView { state: self.state@, cmd: text_view(self.cmd) }
    }
}

/// The entries by model.
pub open spec fn running_views(entries: Seq<(String, Running)>) -> Seq<(Seq<char>, RunningView)> {
    Seq::new(entries.len(), |i: int| (entries[i].0@, entries[i].1@))
}

/// The entry that a reported state and command make. A blank command is none.
pub open spec fn entry_of(state: Option<Seq<char>>, cmd: Option<Seq<char>>) -> RunningView {
    RunningView {
        state: match state {
            Some(s) => s,
            None => Seq::empty(),
        },
        cmd: match cmd {
            Some(c) => if words(c).len() > 0 {
                Some(c)
            } else {
                None
            },
            None => None,
        },
    }
}

/// Where the document holds a field of the entry at `index`.
pub open spec fn running_field(index: nat, field: Seq<char>) -> Seq<char> {
    "/running/"@ + digits(index) + field
}

/// The first `bound` entries of what `GET /running` answers, by model.
pub open spec fn running_in(body: Seq<char>, bound: nat) -> Seq<(Seq<char>, RunningView)>
    decreases bound,
{
    if bound == 0 {
        Seq::empty()
    } else {
        let index = (bound - 1) as nat;
        let before = running_in(body, index);
        match json_text_at(body, running_field(index, "/model"@)) {
            Some(model) => table_with(
                before,
                model,
                entry_of(
                    json_text_at(body, running_field(index, "/state"@)),
                    json_text_at(body, running_field(index, "/cmd"@)),
                ),
            ),
            None => before,
        }
    }
}

/// What `GET /running` answers, by model. Nothing where the answer is not understood.
pub open spec fn running_of(body: Seq<char>) -> Seq<(Seq<char>, RunningView)> {
    match json_length_at(body, "/running"@) {
        Some(count) => running_in(body, count as nat),
        None => Seq::empty(),
    }
}

/// The entry that a reported state and command make.
pub fn running_entry(state: Option<String>, cmd: Option<String>) -> (r: Running)
    ensures
        r@ == entry_of(text_view(state), text_view(cmd)),
{
    let shown = match state {
        Some(s) => s,
        None => String::new(),
    };
    let launched = match cmd {
        Some(c) => if split_whitespace(c.as_str()).len() > 0 {
            Some(c)
        } else {
            None
        },
        None => None,
    };
    Running { state: shown, cmd: launched }
}

/// Put an entry in place of the one for the same model, or at the end.
pub fn put_running(entries: &mut Vec<(String, Running)>, model: String, entry: Running)
    ensures
        running_views(final(entries)@) == table_with(
            running_views(old(entries)@),
            model@,
            entry@,
        ),
{
    let ghost all = running_views(entries@);
    let mut at: usize = 0;
    proof {
        assert(all.skip(0) =~= all);
        assert(all.take(0) + table_with(all, model@, entry@) =~= table_with(all, model@, entry@));
    }
    while at < entries.len()
        invariant
            at <= entries@.len(),
            entries@ == old(entries)@,
            all == running_views(entries@),
            all.take(at as int) + table_with(all.skip(at as int), model@, entry@) == table_with(
                all,
                model@,
                entry@,
            ),
        decreases entries@.len() - at,
    {
        let ghost rest = all.skip(at as int);
        proof {
            assert(rest[0] == all[at as int]);
            assert(rest.skip(1) =~= all.skip(at + 1));
        }
        if same(entries[at].0.as_str(), model.as_str()) {
            let fresh = (model, entry);
            entries.set(at, fresh);
            proof {
                assert(running_views(entries@) =~= all.take(at as int) + (seq![
                    (fresh.0@, fresh.1@),
                ] + rest.skip(1)));
            }
            return ;
        }
        proof {
            assert(all.take(at + 1) + table_with(rest.skip(1), model@, entry@) =~= all.take(
                at as int,
            ) + (seq![rest[0]] + table_with(rest.skip(1), model@, entry@)));
        }
        at = at + 1;
    }
    let fresh = (model, entry);
    proof {
        assert(running_views(entries@.push(fresh)) =~= all.take(at as int) + seq![
            (fresh.0@, fresh.1@),
        ]);
    }
    entries.push(fresh);
}

/// The body of `GET /running`, by model; each model once.
pub fn parse_running(body: &str) -> (entries: Vec<(String, Running)>)
    ensures
        running_views(entries@) == running_of(body@),
{
    let mut entries: Vec<(String, Running)> = Vec::new();
    proof {
        assert(running_views(entries@) =~= running_in(body@, 0));
    }
    let count: usize = match json_length(body, "/running") {
        Some(count) => count,
        None => {
            return entries;
        },
    };
    let mut index: usize = 0;
    while index < count
        invariant
            index <= count,
            running_views(entries@) == running_in(body@, index as nat),
        decreases count - index,
    {
        let place = "/running/".to_owned().concat(count_text(index).as_str());
        if let Some(model) = json_text(body, place.clone().concat("/model").as_str()) {
            let state = json_text(body, place.clone().concat("/state").as_str());
            let cmd = json_text(body, place.clone().concat("/cmd").as_str());
            let entry = running_entry(state, cmd);
            put_running(&mut entries, model, entry);
        }
        index = index + 1;
    }
    entries
}

/// The first `bound` ids of what `GET /v1/models` answers.
pub open spec fn served_in(body: Seq<char>, bound: nat) -> Seq<Seq<char>>
    decreases bound,
{
    if bound == 0 {
        Seq::empty()
    } else {
        let index = (bound - 1) as nat;
        let before = served_in(body, index);
        match json_text_at(body, "/data/"@ + digits(index) + "/id"@) {
            Some(id) => before.push(id),
            None => before,
        }
    }
}

/// The ids that llama-swap advertises, from the body of `GET /v1/models`. `None` where the
/// roster cannot be read.
///
/// Only ever used to explain a failed load: an unlisted model is not in this roster and can
/// still be loaded.
pub fn served_ids(body: &str) -> (r: Option<Vec<String>>)
    ensures
        match r {
            Some(ids) => json_length_at(body@, "/data"@) is Some && views(ids@) == served_in(
                body@,
                json_length_at(body@, "/data"@)->0 as nat,
            ),
            None => json_length_at(body@, "/data"@) is None,
        },
{
    let count: usize = match json_length(body, "/data") {
        Some(count) => count,
        None => {
            return None;
        },
    };
    let mut ids: Vec<String> = Vec::new();
    let mut index: usize = 0;
    proof {
        assert(views(ids@) =~= served_in(body@, 0));
    }
    while index < count
        invariant
            index <= count,
            views(ids@) == served_in(body@, index as nat),
        decreases count - index,
    {
        let place = "/data/".to_owned().concat(count_text(index).as_str()).concat("/id");
        if let Some(id) = json_text(body, place.as_str()) {
            proof {
                lemma_views_push(ids@, id);
            }
            ids.push(id);
        }
        index = index + 1;
    }
    Some(ids)
}

/// The per-slot context and the number of slots that a server reports. A server that does
/// not count slots runs one; an older one tells the context at the top level only.
pub open spec fn reported_context(
    slots: Option<u64>,
    per_slot: Option<u64>,
    top_level: Option<u64>,
) -> Option<(u64, u64)> {
    let count = match slots {
        Some(n) => n,
        None => 1,
    };
    match per_slot {
        Some(context) => Some((context, count)),
        None => match top_level {
            Some(context) => Some((context, count)),
            None => None,
        },
    }
}

/// The per-slot context and the number of slots that a server reports.
pub fn context_reported(
    slots: Option<u64>,
    per_slot: Option<u64>,
    top_level: Option<u64>,
) -> (r: Option<(u64, u64)>)
    ensures
        r == reported_context(slots, per_slot, top_level),
{
    let count: u64 = match slots {
        Some(n) => n,
        None => 1,
    };
    match per_slot {
        Some(context) => Some((context, count)),
        None => match top_level {
            Some(context) => Some((context, count)),
            None => None,
        },
    }
}

/// The `(context_per_slot, slots)` that the running server allocated, from the body of its
/// `/props`. `None` for a shape that is not recognised.
pub fn served_context(body: &str) -> (r: Option<(u64, u64)>)
    ensures
        r == reported_context(
            json_number_at(body@, "/total_slots"@),
            json_number_at(body@, "/default_generation_settings/n_ctx"@),
            json_number_at(body@, "/n_ctx"@),
        ),
{
    let slots = json_number(body, "/total_slots");
    let per_slot = json_number(body, "/default_generation_settings/n_ctx");
    let top_level = json_number(body, "/n_ctx");
    context_reported(slots, per_slot, top_level)
}

// ---- what a command declares ------------------------------------------------------------------

/// The number after the first of two flags to occur, where it is one.
pub open spec fn number_after(tokens: Seq<Seq<char>>, short: Seq<char>, long: Seq<char>) -> Option<
    nat,
>
    decreases tokens.len(),
{
    if tokens.len() == 0 {
        None
    } else if tokens[0] == short || tokens[0] == long {
        if tokens.len() >= 2 {
            unsigned(tokens[1], u64::MAX as nat)
        } else {
            None
        }
    } else {
        number_after(tokens.skip(1), short, long)
    }
}

/// The context and the number of slots that a command declares. Without `-np` the slots are
/// unknown: the server's default is not one. Nothing is declared without `-c`, or by `-c 0`,
/// which only the loaded server can resolve.
pub open spec fn context_declared(tokens: Seq<Seq<char>>) -> Option<(nat, Option<nat>)> {
    match number_after(tokens, "-c"@, "--ctx-size"@) {
        Some(context) => if context > 0 {
            Some(
                (
                    context,
                    match number_after(tokens, "-np"@, "--parallel"@) {
                        Some(slots) => if slots > 0 {
                            Some(slots)
                        } else {
                            None
                        },
                        None => None,
                    },
                ),
            )
        } else {
            None
        },
        None => None,
    }
}

fn number_of(tokens: &Vec<String>, short: &str, long: &str) -> (r: Option<u64>)
    ensures
        match r {
            Some(n) => number_after(views(tokens@), short@, long@) == Some(n as nat),
            None => number_after(views(tokens@), short@, long@) is None,
        },
{
    let ghost all = views(tokens@);
    let mut at: usize = 0;
    proof {
        assert(all.skip(0) =~= all);
    }
    while at < tokens.len()
        invariant
            at <= tokens@.len(),
            all == views(tokens@),
            number_after(all.skip(at as int), short@, long@) == number_after(all, short@, long@),
        decreases tokens@.len() - at,
    {
        proof {
            assert(all.skip(at as int)[0] == tokens@[at as int]@);
            assert(all.skip(at as int).skip(1) =~= all.skip(at + 1));
        }
        let token = tokens[at].as_str();
        if same(token, short) || same(token, long) {
            if tokens.len() - at >= 2 {
                proof {
                    assert(all.skip(at as int)[1] == tokens@[at + 1]@);
                }
                return parse_u64(tokens[at + 1].as_str());
            }
            return None;
        }
        at = at + 1;
    }
    None
}

/// The `(context, slots)` that a launch command declares.
pub fn declared_context(cmd: &str) -> (r: Option<(u64, Option<u64>)>)
    ensures
        match r {
            Some((context, slots)) => context_declared(words(cmd@)) == Some(
                (
                    context as nat,
                    match slots {
                        Some(n) => Some(n as nat),
                        None => None,
                    },
                ),
            ),
            None => context_declared(words(cmd@)) is None,
        },
{
    let tokens = split_whitespace(cmd);
    match number_of(&tokens, "-c", "--ctx-size") {
        Some(context) => {
            if context == 0 {
                return None;
            }
            let slots: Option<u64> = match number_of(&tokens, "-np", "--parallel") {
                Some(n) => if n > 0 {
                    Some(n)
                } else {
                    None
                },
                None => None,
            };
            Some((context, slots))
        },
        None => None,
    }
}

// ---- the cross-check --------------------------------------------------------------------------

/// Whether the model llama-swap loaded is the one whose command was hashed.
#[derive(Debug, PartialEq, Eq)]
pub enum Serving {
    /// The served command matches the config's.
    Confirmed,
    /// It does not: the footprint would belong to neither. `detail` names both sides.
    Mismatch { detail: String },
    /// There is nothing to compare, so the recording is unconfirmed, not wrong.
    Unconfirmed,
}

/// What a cross-check says.
#[verifier::ext_equal]
pub enum ServingView {
    Confirmed,
    Mismatch { detail: Seq<char> },
    Unconfirmed,
}

impl View for Serving {
    type V = ServingView;

    open spec fn view(&self) -> ServingView {
        match *self {
            Serving::Confirmed => ServingView::Confirmed,
            Serving::Mismatch { detail } => ServingView::Mismatch { detail: detail@ },
            Serving::Unconfirmed => ServingView::Unconfirmed,
        }
    }
}

/// Tokens as flags with their values: a token that starts with `-` opens a group, and what
/// follows belongs to it.
pub open spec fn flag_groups(tokens: Seq<Seq<char>>) -> Seq<Seq<char>>
    decreases tokens.len(),
{
    if tokens.len() == 0 {
        Seq::empty()
    } else {
        let before = flag_groups(tokens.drop_last());
        if before.len() == 0 || starts(tokens.last(), "-"@) {
            before.push(tokens.last())
        } else {
            before.drop_last().push(before.last() + " "@ + tokens.last())
        }
    }
}

/// Those of `groups` that are not among `others`.
pub open spec fn groups_without(groups: Seq<Seq<char>>, others: Seq<Seq<char>>) -> Seq<Seq<char>>
    decreases groups.len(),
{
    if groups.len() == 0 {
        Seq::empty()
    } else {
        let before = groups_without(groups.drop_last(), others);
        if others.contains(groups.last()) {
            before
        } else {
            before.push(groups.last())
        }
    }
}

/// What a command has that the other one does not: its flags with other values, or with none
/// there. The whole command where only the order differs.
pub open spec fn difference(command: Seq<char>, other: Seq<char>) -> Seq<char> {
    let own = groups_without(flag_groups(words(command)), flag_groups(words(other)));
    if own.len() == 0 {
        command
    } else {
        joined(own, " "@)
    }
}

fn groups_of(command: &str) -> (groups: Vec<String>)
    ensures
        views(groups@) == flag_groups(words(command@)),
{
    let tokens = split_whitespace(command);
    let ghost all = views(tokens@);
    let mut groups: Vec<String> = Vec::new();
    let mut at: usize = 0;
    proof {
        assert(views(groups@) =~= flag_groups(all.take(0)));
    }
    while at < tokens.len()
        invariant
            at <= tokens@.len(),
            all == views(tokens@),
            views(groups@) == flag_groups(all.take(at as int)),
        decreases tokens@.len() - at,
    {
        let token = tokens[at].clone();
        proof {
            assert(all.take(at + 1).drop_last() =~= all.take(at as int));
            assert(all.take(at + 1).last() == token@);
        }
        let ghost before = groups@;
        if groups.len() == 0 || starts_with(token.as_str(), "-") {
            proof {
                lemma_views_push(groups@, token);
            }
            groups.push(token);
        } else {
            let open = groups.pop().unwrap();
            let longer = open.concat(" ").concat(token.as_str());
            proof {
                assert(views(before).drop_last() =~= views(groups@));
                assert(views(before).last() == before.last()@);
                lemma_views_push(groups@, longer);
            }
            groups.push(longer);
        }
        at = at + 1;
    }
    proof {
        assert(all.take(at as int) =~= all);
    }
    groups
}

/// What a command has that the other one does not.
pub fn token_difference(command: &str, other: &str) -> (text: String)
    ensures
        text@ == difference(command@, other@),
{
    let groups = groups_of(command);
    let others = groups_of(other);
    let ghost all = views(groups@);
    let mut own: Vec<String> = Vec::new();
    let mut at: usize = 0;
    proof {
        assert(views(own@) =~= groups_without(all.take(0), views(others@)));
    }
    while at < groups.len()
        invariant
            at <= groups@.len(),
            all == views(groups@),
            views(own@) == groups_without(all.take(at as int), views(others@)),
        decreases groups@.len() - at,
    {
        proof {
            assert(all.take(at + 1).drop_last() =~= all.take(at as int));
            assert(all.take(at + 1).last() == groups@[at as int]@);
        }
        if !has_name(&others, groups[at].as_str()) {
            let group = groups[at].clone();
            proof {
                lemma_views_push(own@, group);
            }
            own.push(group);
        }
        at = at + 1;
    }
    proof {
        assert(all.take(at as int) =~= all);
    }
    if own.len() == 0 {
        command.to_owned()
    } else {
        join(&own, " ")
    }
}

/// The command the config declares against the one llama-swap launched, by their
/// footprint-affecting tokens. A placeholder left on either side says nothing: llama-swap
/// fills it in at launch, and the config never can.
pub open spec fn commands_compared(declared: Seq<char>, served: Seq<char>) -> ServingView {
    let ours = memory_text(declared);
    let theirs = memory_text(served);
    if occurs_in(ours, "${"@) || occurs_in(theirs, "${"@) {
        ServingView::Unconfirmed
    } else if ours == theirs {
        ServingView::Confirmed
    } else {
        ServingView::Mismatch {
            detail: "this config declares `"@ + difference(ours, theirs)
                + "` where llama-swap launched `"@ + difference(theirs, ours) + "`"@,
        }
    }
}

/// Compare the command the config declares against the one llama-swap launched.
pub fn compare_commands(declared_cmd: &str, served_cmd: &str) -> (r: Serving)
    ensures
        r@ == commands_compared(declared_cmd@, served_cmd@),
{
    let declared = memory_cmd(declared_cmd);
    let served = memory_cmd(served_cmd);
    if contains(declared.as_str(), "${") || contains(served.as_str(), "${") {
        return Serving::Unconfirmed;
    }
    if same(declared.as_str(), served.as_str()) {
        return Serving::Confirmed;
    }
    Serving::Mismatch {
        detail: "this config declares `".to_owned().concat(
            token_difference(declared.as_str(), served.as_str()).as_str(),
        ).concat("` where llama-swap launched `").concat(
            token_difference(served.as_str(), declared.as_str()).as_str(),
        ).concat("`"),
    }
}

pub open spec fn apart(a: int, b: int) -> int {
    if a < b {
        b - a
    } else {
        a - b
    }
}

/// The total context of some slots, held at the largest number there is.
pub open spec fn total_context(per_slot: u64, slots: u64) -> int {
    if per_slot * slots > u64::MAX {
        u64::MAX as int
    } else {
        per_slot * slots
    }
}

/// A declared context is accepted by either of its two meanings: per slot, or the total,
/// which division among the slots may leave short by less than a token each.
pub open spec fn context_accepted(context: u64, slots: Option<u64>, served: (u64, u64)) -> bool {
    &&& slots is Some ==> slots->0 == served.1
    &&& {
        ||| served.0 == context
        ||| apart(total_context(served.0, served.1), context as int) <= (if served.1 > 0 {
            served.1 - 1
        } else {
            0
        })
    }
}

pub open spec fn context_flags(context: u64, slots: Option<u64>) -> Seq<char> {
    match slots {
        Some(n) => "-c "@ + digits(context as nat) + " -np "@ + digits(n as nat),
        None => "-c "@ + digits(context as nat),
    }
}

/// A declared context against the one a live server reports.
pub open spec fn contexts_compared(declared: (u64, Option<u64>), served: (u64, u64)) -> ServingView {
    if context_accepted(declared.0, declared.1, served) {
        ServingView::Confirmed
    } else {
        ServingView::Mismatch {
            detail: "this config declares `"@ + context_flags(declared.0, declared.1)
                + "` but the loaded server reports "@ + digits(served.0 as nat)
                + " per slot across "@ + digits(served.1 as nat) + " slot(s)"@,
        }
    }
}

/// Does a `(context, explicit_slots)` declaration match the `(per_slot_context, slots)` a
/// live server reports?
///
/// `-c` means the total with `-np` and the per-slot context without it, so either is
/// accepted; any change to `-c` makes both wrong at once.
pub fn compare_context(declared: (u64, Option<u64>), served: (u64, u64)) -> (r: Serving)
    ensures
        r@ == contexts_compared(declared, served),
{
    let (context, slots) = declared;
    let (per_slot, served_slots) = served;
    let slots_match = match slots {
        Some(n) => n == served_slots,
        None => true,
    };
    let total: u64 = match per_slot.checked_mul(served_slots) {
        Some(product) => product,
        None => u64::MAX,
    };
    let distance: u64 = if total < context {
        context - total
    } else {
        total - context
    };
    let allowed: u64 = if served_slots > 0 {
        served_slots - 1
    } else {
        0
    };
    if slots_match && (per_slot == context || distance <= allowed) {
        return Serving::Confirmed;
    }
    let mut flags = "-c ".to_owned().concat(number_text(context as u128).as_str());
    if let Some(n) = slots {
        flags = flags.concat(" -np ").concat(number_text(n as u128).as_str());
    }
    Serving::Mismatch {
        detail: "this config declares `".to_owned().concat(flags.as_str()).concat(
            "` but the loaded server reports ",
        ).concat(number_text(per_slot as u128).as_str()).concat(" per slot across ").concat(
            number_text(served_slots as u128).as_str(),
        ).concat(" slot(s)"),
    }
}

/// What the launched command alone says, where it says anything.
pub open spec fn command_verdict(record: RecordView, served_cmd: Option<Seq<char>>) -> ServingView {
    match served_cmd {
        Some(served) => commands_compared(record.cmd, served),
        None => ServingView::Unconfirmed,
    }
}

/// Only llama.cpp servers answer `/props`.
pub open spec fn answers_props(record: RecordView) -> bool {
    record.model_type == ModelType::Llm || record.model_type == ModelType::Embed
        || record.model_type == ModelType::Rerank
}

/// The declared context with its numbers as they are.
pub open spec fn declared_pair(cmd: Seq<char>) -> Option<(u64, Option<u64>)> {
    match context_declared(words(cmd)) {
        Some((context, slots)) => Some(
            (
                context as u64,
                match slots {
                    Some(n) => Some(n as u64),
                    None => None,
                },
            ),
        ),
        None => None,
    }
}

/// The cross-check of a loaded server: by the launched command, which settles it for every
/// backend, else by what the server reports of itself.
pub open spec fn serving_verdict(
    record: RecordView,
    served_cmd: Option<Seq<char>>,
    props: Option<(u64, u64)>,
) -> ServingView {
    if command_verdict(record, served_cmd) != ServingView::Unconfirmed {
        command_verdict(record, served_cmd)
    } else if answers_props(record) && declared_pair(record.cmd) is Some && props is Some {
        contexts_compared(declared_pair(record.cmd)->0, props->0)
    } else {
        ServingView::Unconfirmed
    }
}

fn by_command(record: &ModelRecord, served_cmd: Option<&String>) -> (r: Serving)
    ensures
        r@ == command_verdict(
            record@,
            match served_cmd {
                Some(served) => Some(served@),
                None => None,
            },
        ),
{
    match served_cmd {
        Some(served) => compare_commands(record.cmd.as_str(), served.as_str()),
        None => Serving::Unconfirmed,
    }
}

/// Is what the server reports of itself needed to decide?
pub fn needs_props(record: &ModelRecord, served_cmd: Option<&String>) -> (r: bool)
    ensures
        r == (command_verdict(
            record@,
            match served_cmd {
                Some(served) => Some(served@),
                None => None,
            },
        ) == ServingView::Unconfirmed && answers_props(record@) && declared_pair(
            record@.cmd,
        ) is Some),
{
    match by_command(record, served_cmd) {
        Serving::Unconfirmed => {},
        Serving::Confirmed => {
            return false;
        },
        Serving::Mismatch { .. } => {
            return false;
        },
    }
    let llama = match record.model_type {
        ModelType::Llm | ModelType::Embed | ModelType::Rerank => true,
        ModelType::Stt | ModelType::Image | ModelType::TtsProxy => false,
    };
    llama && declared_context(record.cmd.as_str()).is_some()
}

/// Cross-check the loaded server against the config that was hashed: `served_cmd` is the
/// command llama-swap reports having launched, `props` what the server says it allocated,
/// where it was asked and answered.
pub fn check_serving(
    record: &ModelRecord,
    served_cmd: Option<&String>,
    props: Option<(u64, u64)>,
) -> (r: Serving)
    ensures
        r@ == serving_verdict(
            record@,
            match served_cmd {
                Some(served) => Some(served@),
                None => None,
            },
            props,
        ),
{
    match by_command(record, served_cmd) {
        Serving::Unconfirmed => {},
        Serving::Confirmed => {
            return Serving::Confirmed;
        },
        Serving::Mismatch { detail } => {
            return Serving::Mismatch { detail };
        },
    }
    match record.model_type {
        ModelType::Llm | ModelType::Embed | ModelType::Rerank => {},
        ModelType::Stt | ModelType::Image | ModelType::TtsProxy => {
            return Serving::Unconfirmed;
        },
    }
    match (declared_context(record.cmd.as_str()), props) {
        (Some(declared), Some(served)) => compare_context(declared, served),
        _ => Serving::Unconfirmed,
    }
}

/// A served command that is the config's own, but for footprint-neutral tokens, is never a
/// mismatch.
pub proof fn law_equal_memory_commands_never_mismatch(declared: Seq<char>, served: Seq<char>)
    requires
        memory_text(declared) == memory_text(served),
    ensures
        !(commands_compared(declared, served) is Mismatch),
{
}

/// A confirmed command has the key that the footprint is filed under.
pub proof fn law_confirmed_commands_share_their_key(declared: Seq<char>, served: Seq<char>)
    requires
        commands_compared(declared, served) == ServingView::Confirmed,
    ensures
        crate::param_hash::param_key(declared) == crate::param_hash::param_key(served),
{
}

/// Changing the declared context makes both of its readings wrong: of two contexts further
/// apart than slots can explain, no server confirms both as a total, nor both as per-slot.
pub proof fn law_a_changed_context_is_seen(
    a: u64,
    b: u64,
    slots: u64,
    served: (u64, u64),
)
    requires
        slots == served.1,
        served.1 >= 1,
        apart(a as int, b as int) > 2 * (served.1 - 1),
        context_accepted(a, Some(slots), served),
        served.0 != a,
    ensures
        context_accepted(b, Some(slots), served) ==> served.0 == b,
{
}

// ---- what a cross-check turns on ----------------------------------------------------------

/// A launched command confirms the config's exactly if both come to the same memory command and
/// neither still holds a placeholder; without placeholders, any difference is a mismatch.
pub proof fn law_a_different_memory_command_is_a_mismatch(declared: Seq<char>, served: Seq<char>)
    ensures
        ({
            let ours = memory_text(declared);
            let theirs = memory_text(served);
            let open = occurs_in(ours, "${"@) || occurs_in(theirs, "${"@);
            &&& open ==> commands_compared(declared, served) == ServingView::Unconfirmed
            &&& !open && ours == theirs ==> commands_compared(declared, served)
                == ServingView::Confirmed
            &&& !open && ours != theirs ==> commands_compared(declared, served) is Mismatch
        }),
{
}

/// A declared context matches what a server reports exactly if the slots are as many as declared,
/// where they are, and each slot has the context, or all of them share it with less than a token
/// lost each.
pub proof fn law_a_context_is_per_slot_or_in_total(
    context: u64,
    slots: Option<u64>,
    per_slot: u64,
    count: u64,
)
    requires
        count >= 1,
        per_slot * count <= u64::MAX,
    ensures
        contexts_compared((context, slots), (per_slot, count)) == ServingView::Confirmed <==> (
        slots is None || slots->0 == count) && (per_slot == context || (per_slot * count - context
            < count && context - per_slot * count < count)),
        contexts_compared((context, slots), (per_slot, count)) != ServingView::Confirmed ==> (
        contexts_compared((context, slots), (per_slot, count)) is Mismatch),
{
}

/// The launched command settles it where it says anything; only a llama.cpp server that tells no
/// command is asked for its context, and what cannot be compared is unconfirmed, not wrong.
pub proof fn law_the_launched_command_settles_it(
    record: RecordView,
    served_cmd: Option<Seq<char>>,
    props: Option<(u64, u64)>,
)
    ensures
        served_cmd is Some && commands_compared(record.cmd, served_cmd->0)
            != ServingView::Unconfirmed ==> serving_verdict(record, served_cmd, props)
            == commands_compared(record.cmd, served_cmd->0),
        served_cmd is None && props is None ==> serving_verdict(record, served_cmd, props)
            == ServingView::Unconfirmed,
        served_cmd is None && props is Some && declared_pair(record.cmd) is Some && (
        record.model_type == ModelType::Llm || record.model_type == ModelType::Embed
            || record.model_type == ModelType::Rerank) ==> serving_verdict(
            record,
            served_cmd,
            props,
        ) == contexts_compared(declared_pair(record.cmd)->0, props->0),
        served_cmd is None && (record.model_type == ModelType::Image || record.model_type
            == ModelType::Stt || record.model_type == ModelType::TtsProxy) ==> serving_verdict(
            record,
            served_cmd,
            props,
        ) == ServingView::Unconfirmed,
{
}

/// The number of a flag is the one after its first occurrence, short or long.
pub proof fn law_the_first_number_counts(
    before: Seq<Seq<char>>,
    short: Seq<char>,
    long: Seq<char>,
    flag: Seq<char>,
    n: nat,
    after: Seq<Seq<char>>,
)
    requires
        flag == short || flag == long,
        n <= u64::MAX,
        forall|i: int|
            0 <= i < before.len() ==> #[trigger] before[i] != short && before[i] != long,
    ensures
        number_after(before + seq![flag, digits(n)] + after, short, long) == Some(n),
        number_after(before, short, long) is None,
    decreases before.len(),
{
    let all = before + seq![flag, digits(n)] + after;
    if before.len() == 0 {
        assert(all[0] == flag && all[1] == digits(n));
        crate::number::law_numbers_are_read(n, u64::MAX as nat);
    } else {
        let rest = before.skip(1);
        assert(all[0] == before[0]);
        assert forall|i: int| 0 <= i < rest.len() implies #[trigger] rest[i] != short && rest[i]
            != long by {
            assert(rest[i] == before[i + 1]);
        }
        assert(all.skip(1) =~= rest + seq![flag, digits(n)] + after);
        law_the_first_number_counts(rest, short, long, flag, n, after);
    }
}

/// A command declares the context after its first `-c` or `--ctx-size`, and slots by `-np` or
/// `--parallel`; without a context, or with a context of zero, it declares nothing.
pub proof fn law_a_context_is_declared(tokens: Seq<Seq<char>>)
    ensures
        ({
            let context = number_after(tokens, "-c"@, "--ctx-size"@);
            let slots = number_after(tokens, "-np"@, "--parallel"@);
            &&& context is None || context->0 == 0 ==> context_declared(tokens) is None
            &&& context is Some && context->0 > 0 ==> context_declared(tokens) is Some && (
            context_declared(tokens)->0).0 == context->0
            &&& context is Some && context->0 > 0 && slots is Some && slots->0 > 0 ==> (
            context_declared(tokens)->0).1 == slots
            &&& context is Some && context->0 > 0 && (slots is None || slots->0 == 0) ==> (
            context_declared(tokens)->0).1 is None
        }),
{
}

/// What a server reports of its slots is taken as it is, one slot where it counts none, and the
/// context at the top level where it tells none per slot.
pub proof fn law_a_server_is_taken_at_its_word(
    slots: Option<u64>,
    per_slot: Option<u64>,
    top_level: Option<u64>,
)
    ensures
        per_slot is Some ==> reported_context(slots, per_slot, top_level) is Some && (
        reported_context(slots, per_slot, top_level)->0).0 == per_slot->0,
        per_slot is None && top_level is Some ==> reported_context(
            slots,
            per_slot,
            top_level,
        ) is Some && (reported_context(slots, per_slot, top_level)->0).0 == top_level->0,
        per_slot is None && top_level is None ==> reported_context(
            slots,
            per_slot,
            top_level,
        ) is None,
        per_slot is Some || top_level is Some ==> (reported_context(
            slots,
            per_slot,
            top_level,
        )->0).1 == (if slots is Some {
            slots->0
        } else {
            1
        }),
{
}

/// An entry keeps the state and the command that are reported, but for a blank command.
pub proof fn law_a_blank_command_is_none(state: Option<Seq<char>>, cmd: Option<Seq<char>>)
    ensures
        state is Some ==> entry_of(state, cmd).state == state->0,
        state is None ==> entry_of(state, cmd).state.len() == 0,
        cmd is Some && words(cmd->0).len() > 0 ==> entry_of(state, cmd).cmd == cmd,
        cmd is None || words(cmd->0).len() == 0 ==> entry_of(state, cmd).cmd is None,
{
}

/// Every id that the server lists is among those that are served.
pub proof fn law_every_listed_id_is_served(body: Seq<char>, bound: nat, i: nat, id: Seq<char>)
    requires
        i < bound,
        json_text_at(body, "/data/"@ + digits(i) + "/id"@) == Some(id),
    ensures
        served_in(body, bound).contains(id),
    decreases bound,
{
    let before = served_in(body, (bound - 1) as nat);
    if i + 1 < bound {
        law_every_listed_id_is_served(body, (bound - 1) as nat, i, id);
        let k = choose|k: int| 0 <= k < before.len() && before[k] == id;
        assert(served_in(body, bound)[k] == id);
    } else {
        assert(served_in(body, bound)[before.len() as int] == id);
    }
}

/// Nothing is served that the server does not list.
pub proof fn law_only_listed_ids_are_served(body: Seq<char>, bound: nat, k: int)
    requires
        0 <= k < served_in(body, bound).len(),
    ensures
        exists|i: nat|
            i < bound && #[trigger] json_text_at(body, "/data/"@ + digits(i) + "/id"@) == Some(
                served_in(body, bound)[k],
            ),
    decreases bound,
{
    let index = (bound - 1) as nat;
    let before = served_in(body, index);
    if k < before.len() {
        law_only_listed_ids_are_served(body, index, k);
        let i = choose|i: nat|
            i < index && #[trigger] json_text_at(body, "/data/"@ + digits(i) + "/id"@) == Some(
                before[k],
            );
        assert(json_text_at(body, "/data/"@ + digits(i) + "/id"@) == Some(before[k]));
        assert(served_in(body, bound)[k] == before[k]);
    } else {
        assert(json_text_at(body, "/data/"@ + digits(index) + "/id"@) is Some);
    }
}

/// What llama-swap says of a model that runs is read as it says it: of the last entry that names
/// the model.
pub proof fn law_a_running_model_is_read(body: Seq<char>, bound: nat, i: nat, model: Seq<char>)
    requires
        i < bound,
        json_text_at(body, "/running/"@ + digits(i) + "/model"@) == Some(model),
        forall|k: nat|
            i < k < bound ==> #[trigger] json_text_at(body, "/running/"@ + digits(k) + "/model"@)
                != Some(model),
    ensures
        lookup(running_in(body, bound), model) == Some(
            entry_of(
                json_text_at(body, "/running/"@ + digits(i) + "/state"@),
                json_text_at(body, "/running/"@ + digits(i) + "/cmd"@),
            ),
        ),
    decreases bound,
{
    let index = (bound - 1) as nat;
    let before = running_in(body, index);
    let said = json_text_at(body, "/running/"@ + digits(index) + "/model"@);
    if i < index {
        law_a_running_model_is_read(body, index, i, model);
        assert(said != Some(model));
        if said is Some {
            law_stored_entries_read_back(
                before,
                said->0,
                entry_of(
                    json_text_at(body, running_field(index, "/state"@)),
                    json_text_at(body, running_field(index, "/cmd"@)),
                ),
                model,
            );
        }
    } else {
        law_stored_entries_read_back(
            before,
            model,
            entry_of(
                json_text_at(body, running_field(index, "/state"@)),
                json_text_at(body, running_field(index, "/cmd"@)),
            ),
            model,
        );
    }
}

/// A model that no entry names does not run.
pub proof fn law_only_named_models_run(body: Seq<char>, bound: nat, model: Seq<char>)
    requires
        forall|k: nat|
            k < bound ==> #[trigger] json_text_at(body, "/running/"@ + digits(k) + "/model"@)
                != Some(model),
    ensures
        lookup(running_in(body, bound), model) is None,
    decreases bound,
{
    if bound > 0 {
        let index = (bound - 1) as nat;
        law_only_named_models_run(body, index, model);
        let said = json_text_at(body, "/running/"@ + digits(index) + "/model"@);
        assert(said != Some(model));
        if said is Some {
            law_stored_entries_read_back(
                running_in(body, index),
                said->0,
                entry_of(
                    json_text_at(body, running_field(index, "/state"@)),
                    json_text_at(body, running_field(index, "/cmd"@)),
                ),
                model,
            );
        }
    }
}

/// Commands that still hold a placeholder, and models that are not seen to run, settle nothing.
pub proof fn law_an_unexpanded_command_settles_nothing(declared: Seq<char>, served: Seq<char>)
    ensures
        occurs_in(memory_text(declared), "${"@) || occurs_in(memory_text(served), "${"@)
            ==> commands_compared(declared, served) == ServingView::Unconfirmed,
{
}

/// Where the command settles nothing, a llama.cpp server is asked for its context: it confirms or
/// contradicts what its command declares. Others are not asked.
pub proof fn law_a_server_is_asked_for_its_context(
    record: RecordView,
    context: u64,
    slots: Option<u64>,
    props: (u64, u64),
)
    requires
        declared_pair(record.cmd) == Some((context, slots)),
    ensures
        record.model_type == ModelType::Llm || record.model_type == ModelType::Embed
            || record.model_type == ModelType::Rerank ==> serving_verdict(
            record,
            None,
            Some(props),
        ) == contexts_compared((context, slots), props),
        record.model_type == ModelType::Stt || record.model_type == ModelType::Image
            || record.model_type == ModelType::TtsProxy ==> serving_verdict(
            record,
            None,
            Some(props),
        ) == ServingView::Unconfirmed,
        serving_verdict(record, None, None) == ServingView::Unconfirmed,
{
}

/// A difference names just the flags, each with its values, that the other command lacks.
pub proof fn law_a_difference_is_what_the_other_lacks(
    groups: Seq<Seq<char>>,
    others: Seq<Seq<char>>,
    group: Seq<char>,
)
    ensures
        groups_without(groups, others).contains(group) <==> groups.contains(group)
            && !others.contains(group),
    decreases groups.len(),
{
    let all = groups_without(groups, others);
    if groups.len() > 0 {
        let fewer = groups.drop_last();
        let before = groups_without(fewer, others);
        law_a_difference_is_what_the_other_lacks(fewer, others, group);
        if before.contains(group) {
            let k = choose|k: int| 0 <= k < before.len() && before[k] == group;
            assert(all[k] == group);
            let i = choose|i: int| 0 <= i < fewer.len() && fewer[i] == group;
            assert(groups[i] == group);
        }
        if all.contains(group) && !before.contains(group) {
            let k = choose|k: int| 0 <= k < all.len() && all[k] == group;
            if k < before.len() {
                assert(before[k] == group);
            }
            assert(groups[groups.len() - 1] == group);
        }
        if groups.contains(group) && !others.contains(group) {
            let i = choose|i: int| 0 <= i < groups.len() && groups[i] == group;
            if i < fewer.len() {
                assert(fewer[i] == group);
            } else {
                assert(all[before.len() as int] == group);
            }
        }
    }
}

/// A flag is grouped with the values behind it, and the next flag starts a group of its own.
pub proof fn law_a_flag_is_grouped_with_its_values(tokens: Seq<Seq<char>>, token: Seq<char>)
    requires
        tokens.len() > 0,
    ensures
        starts(token, "-"@) ==> flag_groups(tokens.push(token)) == flag_groups(tokens).push(token),
        !starts(token, "-"@) ==> flag_groups(tokens.push(token)).len() == flag_groups(tokens).len()
            && flag_groups(tokens.push(token)).last() == flag_groups(tokens).last() + " "@ + token,
        flag_groups(tokens).len() > 0,
    decreases tokens.len(),
{
    assert(tokens.push(token).drop_last() =~= tokens);
    lemma_some_group(tokens);
}

proof fn lemma_some_group(tokens: Seq<Seq<char>>)
    requires
        tokens.len() > 0,
    ensures
        flag_groups(tokens).len() > 0,
{
}

} // verus!
