//! The per-model record derived from a llama-swap config entry, and the helpers that
//! classify it. Everything here works on an already macro-expanded command.

use vstd::prelude::*;
use vstd::string::*;

use crate::number::{mib_amount, parse_mib};
use crate::param_hash::{param_hash, param_key};
use crate::text::{
    contains, ends, ends_with, has_name, lemma_views_push, lower, occurs_in, same, split_whitespace,
    to_lower, views, words,
};

verus! {

/// A model's role, derived from its launch command, never from a list of ids.
#[derive(Debug, Clone, Copy, PartialEq, Eq, Structural)]
pub enum ModelType {
    Llm,
    Embed,
    Rerank,
    Stt,
    Image,
    /// A fronted service with a placeholder command (a TTS proxy, say): it holds no GPU
    /// memory of its own, is not measured, and its footprint is set by hand.
    TtsProxy,
}

/// The name of a type, as configs and stores write it.
pub open spec fn name_of_type(model_type: ModelType) -> Seq<char> {
    match model_type {
        ModelType::Llm => "llm"@,
        ModelType::Embed => "embed"@,
        ModelType::Rerank => "rerank"@,
        ModelType::Stt => "stt"@,
        ModelType::Image => "image"@,
        ModelType::TtsProxy => "tts-proxy"@,
    }
}

/// The type with a given name, where there is one.
pub open spec fn type_named(name: Seq<char>) -> Option<ModelType> {
    if name == "llm"@ {
        Some(ModelType::Llm)
    } else if name == "embed"@ {
        Some(ModelType::Embed)
    } else if name == "rerank"@ {
        Some(ModelType::Rerank)
    } else if name == "stt"@ {
        Some(ModelType::Stt)
    } else if name == "image"@ {
        Some(ModelType::Image)
    } else if name == "tts-proxy"@ {
        Some(ModelType::TtsProxy)
    } else {
        None
    }
}

impl ModelType {
    pub fn as_str(self) -> (name: &'static str)
        ensures
            name@ == name_of_type(self),
    {
        match self {
            ModelType::Llm => "llm",
            ModelType::Embed => "embed",
            ModelType::Rerank => "rerank",
            ModelType::Stt => "stt",
            ModelType::Image => "image",
            ModelType::TtsProxy => "tts-proxy",
        }
    }

    /// The type with a given name, where there is one.
    pub fn from_name(name: &str) -> (r: Option<ModelType>)
        ensures
            r == type_named(name@),
    {
        if same(name, "llm") {
            Some(ModelType::Llm)
        } else if same(name, "embed") {
            Some(ModelType::Embed)
        } else if same(name, "rerank") {
            Some(ModelType::Rerank)
        } else if same(name, "stt") {
            Some(ModelType::Stt)
        } else if same(name, "image") {
            Some(ModelType::Image)
        } else if same(name, "tts-proxy") {
            Some(ModelType::TtsProxy)
        } else {
            None
        }
    }
}

/// A name read back is the type that wrote it, and only that name is.
pub proof fn law_type_names_round_trip(model_type: ModelType, name: Seq<char>)
    ensures
        type_named(name_of_type(model_type)) == Some(model_type),
        type_named(name) == Some(model_type) <==> name == name_of_type(model_type),
{
    reveal_strlit("llm");
    reveal_strlit("embed");
    reveal_strlit("rerank");
    reveal_strlit("stt");
    reveal_strlit("image");
    reveal_strlit("tts-proxy");
    assert("llm"@.len() == 3 && "llm"@[0] == 'l');
    assert("stt"@.len() == 3 && "stt"@[0] == 's');
    assert("embed"@.len() == 5 && "embed"@[0] == 'e');
    assert("image"@.len() == 5 && "image"@[0] == 'i');
    assert("rerank"@.len() == 6);
    assert("tts-proxy"@.len() == 9);
}

// ---- reading a command --------------------------------------------------------------

/// The type that a command's binary and flags show.
pub open spec fn type_shown(cmd: Seq<char>) -> ModelType {
    if occurs_in(cmd, "sd-server"@) {
        ModelType::Image
    } else if occurs_in(cmd, "whisper-server"@) {
        ModelType::Stt
    } else if occurs_in(cmd, "--reranking"@) {
        ModelType::Rerank
    } else if occurs_in(cmd, "--embedding"@) {
        ModelType::Embed
    } else {
        ModelType::Llm
    }
}

/// Classify a model by the binary and flags in its command.
pub fn type_from_cmd(cmd: &str) -> (r: ModelType)
    ensures
        r == type_shown(cmd@),
{
    if contains(cmd, "sd-server") {
        ModelType::Image
    } else if contains(cmd, "whisper-server") {
        ModelType::Stt
    } else if contains(cmd, "--reranking") {
        ModelType::Rerank
    } else if contains(cmd, "--embedding") {
        ModelType::Embed
    } else {
        ModelType::Llm
    }
}

/// The token after the first occurrence of `flag` that has one.
pub open spec fn value_after(tokens: Seq<Seq<char>>, flag: Seq<char>) -> Option<Seq<char>>
    decreases tokens.len(),
{
    if tokens.len() < 2 {
        None
    } else if tokens[0] == flag {
        Some(tokens[1])
    } else {
        value_after(tokens.skip(1), flag)
    }
}

/// The token after the first occurrence of `flag` that has one.
pub fn flag_value(tokens: &Vec<String>, flag: &str) -> (r: Option<String>)
    ensures
        match r {
            Some(value) => value_after(views(tokens@), flag@) == Some(value@),
            None => value_after(views(tokens@), flag@) is None,
        },
{
    let ghost all = views(tokens@);
    let mut index: usize = 0;
    proof {
        assert(all.skip(0) =~= all);
    }
    while index < tokens.len()
        invariant
            index <= tokens@.len(),
            all == views(tokens@),
            value_after(all.skip(index as int), flag@) == value_after(all, flag@),
        decreases tokens@.len() - index,
    {
        proof {
            assert(all.skip(index as int).skip(1) =~= all.skip(index + 1));
        }
        if tokens.len() - index >= 2 && same(tokens[index].as_str(), flag) {
            return Some(tokens[index + 1].clone());
        }
        index = index + 1;
    }
    None
}

/// The first of two that is there.
pub open spec fn first_of(a: Option<Seq<char>>, b: Option<Seq<char>>) -> Option<Seq<char>> {
    if a is Some {
        a
    } else {
        b
    }
}

/// The weight file that a command's tokens name, by flag priority: a diffusion model wins
/// over a stray `-m`.
pub open spec fn primary(tokens: Seq<Seq<char>>) -> Option<Seq<char>> {
    first_of(
        value_after(tokens, "--diffusion-model"@),
        first_of(
            value_after(tokens, "-m"@),
            first_of(value_after(tokens, "--model"@), value_after(tokens, "--llm"@)),
        ),
    )
}

/// What an optional text stands for.
pub open spec fn text_view(text: Option<String>) -> Option<Seq<char>> {
    match text {
        Some(t) => Some(t@),
        None => None,
    }
}

/// The model's own weight file, as it appears in the command (an in-container path until
/// the `[paths]` table maps it).
pub fn primary_file(cmd: &str) -> (r: Option<String>)
    ensures
        text_view(r) == primary(words(cmd@)),
{
    let tokens = split_whitespace(cmd);
    let diffusion = flag_value(&tokens, "--diffusion-model");
    if diffusion.is_some() {
        return diffusion;
    }
    let short = flag_value(&tokens, "-m");
    if short.is_some() {
        return short;
    }
    let long = flag_value(&tokens, "--model");
    if long.is_some() {
        return long;
    }
    flag_value(&tokens, "--llm")
}

/// A token names a weight file if it ends, whatever the case, in an extension that a
/// backend loads.
///
/// By extension, not by flag: one command names its weights across many flags and the
/// next backend invents more, while the extensions keep holding.
pub open spec fn names_weights(token: Seq<char>) -> bool {
    let t = lower(token);
    ||| ends(t, ".gguf"@)
    ||| ends(t, ".safetensors"@)
    ||| ends(t, ".bin"@)
    ||| ends(t, ".ckpt"@)
    ||| ends(t, ".pt"@)
    ||| ends(t, ".pth"@)
}

/// The weight files among `tokens`, each once, in order of first occurrence.
pub open spec fn weights_among(tokens: Seq<Seq<char>>) -> Seq<Seq<char>>
    decreases tokens.len(),
{
    if tokens.len() == 0 {
        Seq::empty()
    } else {
        let before = weights_among(tokens.drop_last());
        if names_weights(tokens.last()) && !before.contains(tokens.last()) {
            before.push(tokens.last())
        } else {
            before
        }
    }
}

/// Every weight file the command names, in order, each once.
pub fn weight_files(cmd: &str) -> (files: Vec<String>)
    ensures
        views(files@) == weights_among(words(cmd@)),
{
    let tokens = split_whitespace(cmd);
    let mut files: Vec<String> = Vec::new();
    let mut index: usize = 0;
    let ghost all = words(cmd@);
    while index < tokens.len()
        invariant
            index <= tokens@.len(),
            all == words(cmd@),
            views(tokens@) == all,
            views(files@) == weights_among(all.take(index as int)),
        decreases tokens@.len() - index,
    {
        let token = tokens[index].clone();
        let lowered = to_lower(token.as_str());
        let t = lowered.as_str();
        proof {
            assert(token@ == all[index as int]);
            assert(all.take(index + 1).drop_last() =~= all.take(index as int));
            lemma_views_push(files@, token);
        }
        if (ends_with(t, ".gguf") || ends_with(t, ".safetensors") || ends_with(t, ".bin")
            || ends_with(t, ".ckpt") || ends_with(t, ".pt") || ends_with(t, ".pth")) && !has_name(
            &files,
            token.as_str(),
        ) {
            files.push(token);
        }
        index = index + 1;
    }
    proof {
        assert(all.take(index as int) =~= all);
    }
    files
}

/// The weight files a command names are distinct, and each is one of its tokens.
pub proof fn law_weight_files_are_distinct_tokens(cmd: Seq<char>)
    ensures
        weights_among(words(cmd)).no_duplicates(),
        forall|i: int|
            0 <= i < weights_among(words(cmd)).len() ==> {
                &&& words(cmd).contains(#[trigger] weights_among(words(cmd))[i])
                &&& names_weights(weights_among(words(cmd))[i])
            },
{
    lemma_weights_among(words(cmd));
}

proof fn lemma_weights_among(tokens: Seq<Seq<char>>)
    ensures
        weights_among(tokens).no_duplicates(),
        forall|i: int|
            0 <= i < weights_among(tokens).len() ==> {
                &&& tokens.contains(#[trigger] weights_among(tokens)[i])
                &&& names_weights(weights_among(tokens)[i])
            },
    decreases tokens.len(),
{
    if tokens.len() > 0 {
        lemma_weights_among(tokens.drop_last());
        let before = weights_among(tokens.drop_last());
        assert forall|i: int| 0 <= i < weights_among(tokens).len() implies tokens.contains(
            #[trigger] weights_among(tokens)[i],
        ) && names_weights(weights_among(tokens)[i]) by {
            if i < before.len() {
                assert(weights_among(tokens)[i] == before[i]);
                let j = choose|j: int|
                    0 <= j < tokens.drop_last().len() && tokens.drop_last()[j] == before[i];
                assert(tokens[j] == before[i]);
            } else {
                assert(tokens[tokens.len() - 1] == weights_among(tokens)[i]);
            }
        }
    }
}

/// The prompt-cache cap that a command's tokens state: the plain number of MiB after the
/// first `-cram` or `--cache-ram`.
pub open spec fn cache_cap(tokens: Seq<Seq<char>>) -> Option<int>
    decreases tokens.len(),
{
    if tokens.len() == 0 {
        None
    } else if tokens[0] == "-cram"@ || tokens[0] == "--cache-ram"@ {
        if tokens.len() >= 2 {
            mib_amount(tokens[1])
        } else {
            None
        }
    } else {
        cache_cap(tokens.skip(1))
    }
}

/// Host memory a llama-server holds for its prompt cache, in units, per the command.
///
/// `-cram` and `--cache-ram` take MiB; `-cram 0` turns the cache off. `None` where the
/// command does not say, which is not zero: recent builds take 8192 MiB without the flag
/// appearing anywhere, so the caller decides what to assume.
pub fn declared_cache_ram_gb(cmd: &str) -> (r: Option<i64>)
    ensures
        match r {
            Some(units) => cache_cap(words(cmd@)) == Some(units as int),
            None => cache_cap(words(cmd@)) is None,
        },
{
    let tokens = split_whitespace(cmd);
    let ghost all = views(tokens@);
    let mut index: usize = 0;
    proof {
        assert(all.skip(0) =~= all);
    }
    while index < tokens.len()
        invariant
            index <= tokens@.len(),
            all == views(tokens@),
            all == words(cmd@),
            cache_cap(all.skip(index as int)) == cache_cap(all),
        decreases tokens@.len() - index,
    {
        proof {
            assert(all.skip(index as int).skip(1) =~= all.skip(index + 1));
        }
        let token = tokens[index].as_str();
        if same(token, "-cram") || same(token, "--cache-ram") {
            if tokens.len() - index >= 2 {
                return parse_mib(tokens[index + 1].as_str());
            }
            return None;
        }
        index = index + 1;
    }
    None
}

/// A placeholder command: it starts nothing (`sleep infinity`), or it names neither a
/// weight file nor a server.
pub open spec fn is_placeholder(cmd: Seq<char>) -> bool {
    ||| words(cmd).len() > 0 && words(cmd)[0] == "sleep"@
    ||| primary(words(cmd)) is None && !occurs_in(cmd, "-server"@)
}

/// Does this command look like a placeholder proxy rather than a real server? Such
/// entries hold no GPU memory and are not measured.
pub fn looks_like_proxy(cmd: &str) -> (r: bool)
    ensures
        r == is_placeholder(cmd@),
{
    let tokens = split_whitespace(cmd);
    if tokens.len() > 0 && same(tokens[0].as_str(), "sleep") {
        proof {
            assert(views(tokens@)[0] == tokens@[0]@);
        }
        return true;
    }
    proof {
        if words(cmd@).len() > 0 {
            assert(views(tokens@)[0] == tokens@[0]@);
        }
    }
    primary_file(cmd).is_none() && !contains(cmd, "-server")
}

// ---- the record -----------------------------------------------------------------------

/// A parsed, classified model ready for measurement or matrix math.
#[derive(Debug)]
pub struct ModelRecord {
    pub id: String,
    /// The launch command, macro-expanded and on one line.
    pub cmd: String,
    pub model_type: ModelType,
    /// Weight path as written in the command (a container path until mapped).
    pub primary_file: Option<String>,
    pub param_hash: String,
}

/// What a record says.
#[verifier::ext_equal]
pub struct RecordView {
    pub id: Seq<char>,
    pub cmd: Seq<char>,
    pub model_type: ModelType,
    pub primary_file: Option<Seq<char>>,
    pub param_hash: Seq<char>,
}

impl View for ModelRecord {
    type V = RecordView;

    open spec fn view(&self) -> RecordView {
        RecordView {
            id: self.id@,
            cmd: self.cmd@,
            model_type: self.model_type,
            primary_file: text_view(self.primary_file),
            param_hash: self.param_hash@,
        }
    }
}

/// The type of a model: what its command shows, but a proxy where that is no more than
/// the default and the command is a placeholder.
pub open spec fn type_of(cmd: Seq<char>) -> ModelType {
    if type_shown(cmd) == ModelType::Llm && is_placeholder(cmd) {
        ModelType::TtsProxy
    } else {
        type_shown(cmd)
    }
}

/// The record of a model with this id and this expanded command.
pub open spec fn record_of(id: Seq<char>, cmd: Seq<char>) -> RecordView {
    RecordView {
        id,
        cmd,
        model_type: type_of(cmd),
        primary_file: primary(words(cmd)),
        param_hash: param_key(cmd),
    }
}

impl ModelRecord {
    /// Build a record from an id and an already expanded, one-line command.
    pub fn from_expanded(id: &str, cmd: &str) -> (r: Self)
        ensures
            r@ == record_of(id@, cmd@),
    {
        let mut model_type = type_from_cmd(cmd);
        if model_type == ModelType::Llm && looks_like_proxy(cmd) {
            model_type = ModelType::TtsProxy;
        }
        ModelRecord {
            id: id.to_owned(),
            cmd: cmd.to_owned(),
            model_type,
            primary_file: primary_file(cmd),
            param_hash: param_hash(cmd),
        }
    }
}

// ---- what a command makes of a model ------------------------------------------------------

/// A model's type by its command: sd-server makes pictures, else whisper-server transcribes,
/// else `--reranking` and `--embedding` say what they name, and what is left is a model to
/// converse with, unless nothing is served at all.
pub proof fn law_a_command_shows_the_type(id: Seq<char>, cmd: Seq<char>)
    ensures
        occurs_in(cmd, "sd-server"@) ==> record_of(id, cmd).model_type == ModelType::Image,
        !occurs_in(cmd, "sd-server"@) && occurs_in(cmd, "whisper-server"@) ==> record_of(
            id,
            cmd,
        ).model_type == ModelType::Stt,
        !occurs_in(cmd, "sd-server"@) && !occurs_in(cmd, "whisper-server"@) && occurs_in(
            cmd,
            "--reranking"@,
        ) ==> record_of(id, cmd).model_type == ModelType::Rerank,
        !occurs_in(cmd, "sd-server"@) && !occurs_in(cmd, "whisper-server"@) && !occurs_in(
            cmd,
            "--reranking"@,
        ) && occurs_in(cmd, "--embedding"@) ==> record_of(id, cmd).model_type == ModelType::Embed,
        !occurs_in(cmd, "sd-server"@) && !occurs_in(cmd, "whisper-server"@) && !occurs_in(
            cmd,
            "--reranking"@,
        ) && !occurs_in(cmd, "--embedding"@) ==> record_of(id, cmd).model_type == ModelType::Llm
            || record_of(id, cmd).model_type == ModelType::TtsProxy,
{
}

/// A model is a proxy only if its command starts nothing: a command that names a server or a
/// weight file, and does not sleep, is never one.
pub proof fn law_a_server_is_no_proxy(id: Seq<char>, cmd: Seq<char>)
    requires
        words(cmd).len() > 0,
        words(cmd)[0] != "sleep"@,
        occurs_in(cmd, "-server"@) || primary(words(cmd)) is Some,
    ensures
        record_of(id, cmd).model_type != ModelType::TtsProxy,
{
}

/// A command that sleeps, and shows no backend, is a proxy; so is one that names neither a
/// server nor a weight file.
pub proof fn law_a_placeholder_is_a_proxy(id: Seq<char>, cmd: Seq<char>)
    requires
        !occurs_in(cmd, "sd-server"@),
        !occurs_in(cmd, "whisper-server"@),
        !occurs_in(cmd, "--reranking"@),
        !occurs_in(cmd, "--embedding"@),
        (words(cmd).len() > 0 && words(cmd)[0] == "sleep"@) || (primary(words(cmd)) is None
            && !occurs_in(cmd, "-server"@)),
    ensures
        record_of(id, cmd).model_type == ModelType::TtsProxy,
{
}

/// A record is of its id and its command, under the key of that command.
pub proof fn law_a_record_is_of_its_command(id: Seq<char>, cmd: Seq<char>)
    ensures
        record_of(id, cmd).id == id,
        record_of(id, cmd).cmd == cmd,
        record_of(id, cmd).param_hash == param_key(cmd),
        record_of(id, cmd).primary_file == primary(words(cmd)),
{
}

/// The value of a flag is the token after its first occurrence, and without the flag there is
/// none.
pub proof fn law_a_flag_is_followed_by_its_value(
    before: Seq<Seq<char>>,
    flag: Seq<char>,
    value: Seq<char>,
    after: Seq<Seq<char>>,
)
    requires
        !before.contains(flag),
    ensures
        value_after(before + seq![flag, value] + after, flag) == Some(value),
        value_after(before, flag) is None,
    decreases before.len(),
{
    let all = before + seq![flag, value] + after;
    if before.len() == 0 {
        assert(all[0] == flag && all[1] == value);
    } else {
        let rest = before.skip(1);
        assert(before[0] != flag) by {
            assert(before.contains(before[0]));
        }
        assert forall|i: int| 0 <= i < rest.len() implies rest[i] != flag by {
            assert(before.contains(before[i + 1]));
        }
        assert(!rest.contains(flag));
        assert(all.skip(1) =~= rest + seq![flag, value] + after);
        law_a_flag_is_followed_by_its_value(rest, flag, value, after);
    }
}

/// The weight file is what `--diffusion-model` names, else `-m`, else `--model`, else `--llm`.
pub proof fn law_a_diffusion_model_comes_first(tokens: Seq<Seq<char>>)
    ensures
        value_after(tokens, "--diffusion-model"@) is Some ==> primary(tokens) == value_after(
            tokens,
            "--diffusion-model"@,
        ),
        value_after(tokens, "--diffusion-model"@) is None && value_after(tokens, "-m"@) is Some
            ==> primary(tokens) == value_after(tokens, "-m"@),
        value_after(tokens, "--diffusion-model"@) is None && value_after(tokens, "-m"@) is None
            && value_after(tokens, "--model"@) is Some ==> primary(tokens) == value_after(
            tokens,
            "--model"@,
        ),
        value_after(tokens, "--diffusion-model"@) is None && value_after(tokens, "-m"@) is None
            && value_after(tokens, "--model"@) is None ==> primary(tokens) == value_after(
            tokens,
            "--llm"@,
        ),
{
}

/// Every token that ends in an extension of weights, in whatever case, is among the weight files
/// of a command.
pub proof fn law_every_weight_file_is_found(tokens: Seq<Seq<char>>, i: int)
    requires
        0 <= i < tokens.len(),
        ends(lower(tokens[i]), ".gguf"@) || ends(lower(tokens[i]), ".safetensors"@) || ends(
            lower(tokens[i]),
            ".bin"@,
        ) || ends(lower(tokens[i]), ".ckpt"@) || ends(lower(tokens[i]), ".pt"@) || ends(
            lower(tokens[i]),
            ".pth"@,
        ),
    ensures
        weights_among(tokens).contains(tokens[i]),
    decreases tokens.len(),
{
    let before = weights_among(tokens.drop_last());
    if i < tokens.len() - 1 {
        law_every_weight_file_is_found(tokens.drop_last(), i);
        let k = choose|k: int| 0 <= k < before.len() && before[k] == tokens[i];
        assert(weights_among(tokens)[k] == tokens[i]);
    } else if !before.contains(tokens[i]) {
        assert(weights_among(tokens)[before.len() as int] == tokens[i]);
    }
}

/// Nothing else is: each has one of those extensions.
pub proof fn law_weight_files_have_their_extensions(tokens: Seq<Seq<char>>, k: int)
    requires
        0 <= k < weights_among(tokens).len(),
    ensures
        ({
            let t = lower(weights_among(tokens)[k]);
            ends(t, ".gguf"@) || ends(t, ".safetensors"@) || ends(t, ".bin"@) || ends(t, ".ckpt"@)
                || ends(t, ".pt"@) || ends(t, ".pth"@)
        }),
{
    lemma_weights_among(tokens);
}

/// The prompt-cache cap of a command is what follows its first `-cram` or `--cache-ram`, and
/// without either there is none.
pub proof fn law_the_first_cap_counts(
    before: Seq<Seq<char>>,
    flag: Seq<char>,
    value: Seq<char>,
    after: Seq<Seq<char>>,
)
    requires
        flag == "-cram"@ || flag == "--cache-ram"@,
        forall|i: int|
            0 <= i < before.len() ==> #[trigger] before[i] != "-cram"@ && before[i]
                != "--cache-ram"@,
    ensures
        cache_cap(before + seq![flag, value] + after) == mib_amount(value),
        cache_cap(before) is None,
    decreases before.len(),
{
    let all = before + seq![flag, value] + after;
    if before.len() == 0 {
        assert(all[0] == flag && all[1] == value);
    } else {
        let rest = before.skip(1);
        assert(all[0] == before[0]);
        assert forall|i: int| 0 <= i < rest.len() implies #[trigger] rest[i] != "-cram"@ && rest[i]
            != "--cache-ram"@ by {
            assert(rest[i] == before[i + 1]);
        }
        assert(all.skip(1) =~= rest + seq![flag, value] + after);
        law_the_first_cap_counts(rest, flag, value, after);
    }
}

/// `-cram 0` states a cap of nothing, and `-cram 4096` one of four GB: a whole number of MiB
/// is a cap of as many.
pub proof fn law_a_cap_is_stated_in_mib(
    before: Seq<Seq<char>>,
    flag: Seq<char>,
    mib: nat,
    after: Seq<Seq<char>>,
)
    requires
        flag == "-cram"@ || flag == "--cache-ram"@,
        forall|i: int|
            0 <= i < before.len() ==> #[trigger] before[i] != "-cram"@ && before[i]
                != "--cache-ram"@,
        mib <= 9_000_000_000_000,
    ensures
        cache_cap(before + seq![flag, crate::number::digits(mib)] + after) == Some(
            (mib * 1_000_000) as int,
        ),
{
    law_the_first_cap_counts(before, flag, crate::number::digits(mib), after);
    crate::number::law_whole_mib_are_read(mib);
}

} // verus!
