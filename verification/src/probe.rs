//! The requests that make llama-swap load a model, and the weight files behind it.

use vstd::prelude::*;
use vstd::string::*;
use vstd::utf8::encode_utf8;

use crate::model::{weight_files, weights_among, ModelRecord, ModelType, RecordView};
use crate::param_hash::hex;
use crate::platform::{bytes_amount, units_of_bytes};
use crate::policy::{host_path, Policy, PolicyView};
use crate::text::{lemma_views_push, occurs_at, occurs_in, views, words};

verus! {

// ---- bytes --------------------------------------------------------------------------------

fn push_bytes(body: &mut Vec<u8>, bytes: &[u8])
    ensures
        final(body)@ == old(body)@ + bytes@,
{
    let ghost before = body@;
    let length: usize = bytes.len();
    let mut at: usize = 0;
    proof {
        assert(before + bytes@.take(0) =~= before);
    }
    while at < length
        invariant
            at <= length == bytes@.len(),
            before == old(body)@,
            body@ == before + bytes@.take(at as int),
        decreases length - at,
    {
        body.push(bytes[at]);
        at = at + 1;
        proof {
            assert(before + bytes@.take(at as int) =~= (before + bytes@.take(at - 1)).push(
                bytes@[at - 1],
            ));
        }
    }
    proof {
        assert(bytes@.take(at as int) =~= bytes@);
    }
}

fn push_text(body: &mut Vec<u8>, text: &str)
    ensures
        final(body)@ == old(body)@ + encode_utf8(text@),
{
    push_bytes(body, text.as_bytes());
}

// ---- a little silence -----------------------------------------------------------------------

/// The four bytes of a number, lowest first.
pub open spec fn little4(n: u32) -> Seq<u8> {
    seq![
        (n % 256) as u8,
        (n / 256 % 256) as u8,
        (n / 65_536 % 256) as u8,
        (n / 16_777_216) as u8,
    ]
}

/// The two bytes of a number, lowest first.
pub open spec fn little2(n: u16) -> Seq<u8> {
    seq![(n % 256) as u8, (n / 256) as u8]
}

/// The header of a WAV file with `data` bytes of 16 kHz mono 16-bit samples.
pub open spec fn wav_header(data: u32) -> Seq<u8> {
    encode_utf8("RIFF"@) + little4((36 + data) as u32) + encode_utf8("WAVEfmt "@) + little4(16)
        + little2(1) + little2(1) + little4(16_000) + little4(32_000) + little2(2) + little2(16)
        + encode_utf8("data"@) + little4(data)
}

/// The bytes of 0.3 s of samples.
pub const SILENCE_BYTES: u32 = 9_600;

/// A WAV file of 0.3 s of silence.
pub open spec fn silent_wav() -> Seq<u8> {
    wav_header(SILENCE_BYTES) + Seq::new(SILENCE_BYTES as nat, |i: int| 0u8)
}

fn push_little4(body: &mut Vec<u8>, n: u32)
    ensures
        final(body)@ == old(body)@ + little4(n),
{
    let ghost before = body@;
    body.push((n % 256) as u8);
    body.push((n / 256 % 256) as u8);
    body.push((n / 65_536 % 256) as u8);
    body.push((n / 16_777_216) as u8);
    proof {
        assert(body@ =~= before + little4(n));
    }
}

fn push_little2(body: &mut Vec<u8>, n: u16)
    ensures
        final(body)@ == old(body)@ + little2(n),
{
    let ghost before = body@;
    body.push((n % 256) as u8);
    body.push((n / 256) as u8);
    proof {
        assert(body@ =~= before + little2(n));
    }
}

/// 16 kHz mono 16-bit, 0.3 s of silence.
pub fn tiny_wav() -> (wav: Vec<u8>)
    ensures
        wav@ == silent_wav(),
        wav@.len() == 44 + SILENCE_BYTES,
{
    let data: u32 = SILENCE_BYTES;
    let mut wav: Vec<u8> = Vec::new();
    push_text(&mut wav, "RIFF");
    push_little4(&mut wav, 36 + data);
    push_text(&mut wav, "WAVEfmt ");
    push_little4(&mut wav, 16);
    push_little2(&mut wav, 1);
    push_little2(&mut wav, 1);
    push_little4(&mut wav, 16_000);
    push_little4(&mut wav, 32_000);
    push_little2(&mut wav, 2);
    push_little2(&mut wav, 16);
    push_text(&mut wav, "data");
    push_little4(&mut wav, data);
    let ghost header = wav@;
    proof {
        assert(header =~= wav_header(SILENCE_BYTES));
    }
    let mut at: u32 = 0;
    while at < data
        invariant
            data == SILENCE_BYTES,
            at <= data,
            wav@ == header + Seq::new(at as nat, |i: int| 0u8),
        decreases data - at,
    {
        wav.push(0);
        at = at + 1;
        proof {
            assert(wav@ =~= header + Seq::new(at as nat, |i: int| 0u8));
        }
    }
    proof {
        lemma_wav_length();
    }
    wav
}

proof fn lemma_wav_length()
    ensures
        silent_wav().len() == 44 + SILENCE_BYTES,
{
    reveal_strlit("RIFF");
    reveal_strlit("WAVEfmt ");
    reveal_strlit("data");
    vstd::utf8::is_ascii_chars_encode_utf8("RIFF"@);
    vstd::utf8::is_ascii_chars_encode_utf8("WAVEfmt "@);
    vstd::utf8::is_ascii_chars_encode_utf8("data"@);
}

/// A multipart form: the `model` field, then a tiny silent WAV file.
pub open spec fn wav_form(model: Seq<char>, boundary: Seq<char>) -> Seq<u8> {
    encode_utf8("--"@) + encode_utf8(boundary) + encode_utf8(
        "\r\nContent-Disposition: form-data; name=\"model\"\r\n\r\n"@,
    ) + encode_utf8(model) + encode_utf8("\r\n--"@) + encode_utf8(boundary) + encode_utf8(
        "\r\nContent-Disposition: form-data; name=\"file\"; filename=\"a.wav\"\r\nContent-Type: audio/wav\r\n\r\n"@,
    ) + silent_wav() + encode_utf8("\r\n--"@) + encode_utf8(boundary) + encode_utf8("--\r\n"@)
}

/// A `multipart/form-data` body: the `model` field and a tiny silent WAV file.
pub fn multipart_wav(model: &str, boundary: &str) -> (body: Vec<u8>)
    ensures
        body@ == wav_form(model@, boundary@),
{
    let mut body: Vec<u8> = Vec::new();
    push_text(&mut body, "--");
    push_text(&mut body, boundary);
    push_text(&mut body, "\r\nContent-Disposition: form-data; name=\"model\"\r\n\r\n");
    push_text(&mut body, model);
    push_text(&mut body, "\r\n--");
    push_text(&mut body, boundary);
    push_text(
        &mut body,
        "\r\nContent-Disposition: form-data; name=\"file\"; filename=\"a.wav\"\r\nContent-Type: audio/wav\r\n\r\n",
    );
    let wav = tiny_wav();
    push_bytes(&mut body, wav.as_slice());
    push_text(&mut body, "\r\n--");
    push_text(&mut body, boundary);
    push_text(&mut body, "--\r\n");
    proof {
        assert(body@ =~= wav_form(model@, boundary@));
    }
    body
}

// ---- the trigger ------------------------------------------------------------------------------

/// A character inside a JSON string: escaped where JSON does not allow it as it is.
pub open spec fn json_char(c: char) -> Seq<char> {
    if c == '"' {
        seq!['\\', '"']
    } else if c == '\\' {
        seq!['\\', '\\']
    } else if c == '\u{8}' {
        seq!['\\', 'b']
    } else if c == '\t' {
        seq!['\\', 't']
    } else if c == '\n' {
        seq!['\\', 'n']
    } else if c == '\u{c}' {
        seq!['\\', 'f']
    } else if c == '\r' {
        seq!['\\', 'r']
    } else if ' ' > c {
        seq!['\\', 'u', '0', '0'] + hex(seq![c as u8])
    } else {
        seq![c]
    }
}

pub open spec fn json_chars(text: Seq<char>) -> Seq<char>
    decreases text.len(),
{
    if text.len() == 0 {
        Seq::empty()
    } else {
        json_chars(text.drop_last()) + json_char(text.last())
    }
}

/// A text as a JSON string.
pub open spec fn json_quoted(text: Seq<char>) -> Seq<char> {
    seq!['"'] + json_chars(text) + seq!['"']
}

/// `serde_json::to_string` of a string: the string in quotes, where quotes, backslashes and
/// what is below a space are escaped, and everything else stands as it is.
#[verifier::external_body]
fn json_string(text: &str) -> (r: String)
    ensures
        r@ == json_quoted(text@),
{
    serde_json::to_string(text).expect("a string can be written")
}

/// The separator between the parts of a form.
pub const BOUNDARY: &'static str = "----llamamatrixboundary";

/// A request to post.
#[derive(Debug)]
pub struct Request {
    /// Where to, below the endpoint.
    pub path: String,
    pub content_type: String,
    pub body: Vec<u8>,
}

/// Where a model's load is triggered: the endpoint of what it serves.
pub open spec fn trigger_path(model_type: ModelType) -> Seq<char> {
    match model_type {
        ModelType::Embed => "/v1/embeddings"@,
        ModelType::Rerank => "/v1/rerank"@,
        ModelType::Image => "/v1/images/generations"@,
        ModelType::Stt => "/v1/audio/transcriptions"@,
        ModelType::Llm | ModelType::TtsProxy => "/v1/chat/completions"@,
    }
}

/// The smallest request of its kind, as JSON, with the model and the image size already
/// quoted.
pub open spec fn trigger_json(model_type: ModelType, model: Seq<char>, size: Seq<char>) -> Seq<char> {
    match model_type {
        ModelType::Embed => "{\"input\":\"x\",\"model\":"@ + model + "}"@,
        ModelType::Rerank => "{\"documents\":[\"a\",\"b\"],\"model\":"@ + model
            + ",\"query\":\"x\"}"@,
        ModelType::Image => "{\"model\":"@ + model + ",\"prompt\":\"a cube\",\"size\":"@ + size
            + "}"@,
        _ => "{\"max_tokens\":1,\"messages\":[{\"content\":\"hi\",\"role\":\"user\"}],\"model\":"@
            + model + "}"@,
    }
}

/// The smallest request of its kind, as JSON.
pub fn trigger_body(model_type: ModelType, model: &str, size: &str) -> (text: String)
    ensures
        text@ == trigger_json(model_type, model@, size@),
{
    match model_type {
        ModelType::Embed => "{\"input\":\"x\",\"model\":".to_owned().concat(model).concat("}"),
        ModelType::Rerank => "{\"documents\":[\"a\",\"b\"],\"model\":".to_owned().concat(
            model,
        ).concat(",\"query\":\"x\"}"),
        ModelType::Image => "{\"model\":".to_owned().concat(model).concat(
            ",\"prompt\":\"a cube\",\"size\":",
        ).concat(size).concat("}"),
        ModelType::Llm | ModelType::Stt | ModelType::TtsProxy =>
        "{\"max_tokens\":1,\"messages\":[{\"content\":\"hi\",\"role\":\"user\"}],\"model\":".to_owned().concat(
            model,
        ).concat("}"),
    }
}

/// The request that makes llama-swap load a model.
pub fn trigger(model: &str, model_type: ModelType, image_size: &str) -> (r: Request)
    ensures
        r.path@ == trigger_path(model_type),
        model_type == ModelType::Stt ==> r.content_type@ == "multipart/form-data; boundary="@
            + BOUNDARY@ && r.body@ == wav_form(model@, BOUNDARY@),
        model_type != ModelType::Stt ==> r.content_type@ == "application/json"@ && r.body@
            == encode_utf8(trigger_json(model_type, json_quoted(model@), json_quoted(image_size@))),
{
    let path = match model_type {
        ModelType::Embed => "/v1/embeddings",
        ModelType::Rerank => "/v1/rerank",
        ModelType::Image => "/v1/images/generations",
        ModelType::Stt => "/v1/audio/transcriptions",
        ModelType::Llm | ModelType::TtsProxy => "/v1/chat/completions",
    };
    if model_type == ModelType::Stt {
        return Request {
            path: path.to_owned(),
            content_type: "multipart/form-data; boundary=".to_owned().concat(BOUNDARY),
            body: multipart_wav(model, BOUNDARY),
        };
    }
    let text = trigger_body(
        model_type,
        json_string(model).as_str(),
        json_string(image_size).as_str(),
    );
    let mut body: Vec<u8> = Vec::new();
    push_text(&mut body, text.as_str());
    proof {
        assert(body@ =~= encode_utf8(text@));
    }
    Request { path: path.to_owned(), content_type: "application/json".to_owned(), body }
}

// ---- weights ------------------------------------------------------------------------------------

/// Where the weight files that a command names lie on the host.
pub open spec fn host_weights(record: RecordView, policy: PolicyView) -> Seq<Seq<char>> {
    let files = weights_among(words(record.cmd));
    Seq::new(files.len(), |i: int| host_path(policy.paths, files[i]))
}

/// Where the weight files that a command names lie on the host.
pub fn weight_paths(record: &ModelRecord, policy: &Policy) -> (paths: Vec<String>)
    ensures
        views(paths@) == host_weights(record@, policy@),
{
    let files = weight_files(record.cmd.as_str());
    let ghost wanted = host_weights(record@, policy@);
    let mut paths: Vec<String> = Vec::new();
    let mut at: usize = 0;
    proof {
        assert(views(paths@) =~= wanted.take(0));
    }
    while at < files.len()
        invariant
            at <= files@.len(),
            views(files@) == weights_among(words(record@.cmd)),
            wanted == host_weights(record@, policy@),
            views(paths@) == wanted.take(at as int),
        decreases files@.len() - at,
    {
        let path = policy.to_host(files[at].as_str());
        proof {
            assert(views(files@)[at as int] == files@[at as int]@);
            lemma_views_push(paths@, path);
            assert(wanted.take(at + 1) =~= wanted.take(at as int).push(path@));
        }
        paths.push(path);
        at = at + 1;
    }
    proof {
        assert(wanted.take(at as int) =~= wanted);
    }
    paths
}

/// The bytes of the files whose size is known.
pub open spec fn known_bytes(sizes: Seq<Option<u64>>) -> nat
    decreases sizes.len(),
{
    if sizes.len() == 0 {
        0
    } else {
        known_bytes(sizes.drop_last()) + match sizes.last() {
            Some(bytes) => bytes as nat,
            None => 0,
        }
    }
}

/// Some file's size is known.
pub open spec fn any_known(sizes: Seq<Option<u64>>) -> bool {
    exists|i: int| 0 <= i < sizes.len() && (#[trigger] sizes[i]) is Some
}

/// The size of the weight files that can be read, by the size of each. `None` when none of
/// them can: then no floor is claimed.
pub fn weights_gb(sizes: &Vec<Option<u64>>) -> (r: Option<i64>)
    ensures
        match r {
            Some(units) => any_known(sizes@) && units == bytes_amount(
                if known_bytes(sizes@) <= 0xffff_ffff_ffff_ffff_ffff {
                    known_bytes(sizes@)
                } else {
                    0xffff_ffff_ffff_ffff_ffff
                },
            ),
            None => !any_known(sizes@),
        },
{
    let limit: u128 = 0xffff_ffff_ffff_ffff_ffff;
    let mut total: u128 = 0;
    let mut readable = false;
    let mut at: usize = 0;
    while at < sizes.len()
        invariant
            at <= sizes@.len(),
            limit == 0xffff_ffff_ffff_ffff_ffff,
            total == if known_bytes(sizes@.take(at as int)) <= limit {
                known_bytes(sizes@.take(at as int))
            } else {
                limit as nat
            },
            readable == any_known(sizes@.take(at as int)),
        decreases sizes@.len() - at,
    {
        proof {
            let longer = sizes@.take(at + 1);
            assert(longer.drop_last() =~= sizes@.take(at as int));
            assert(longer.last() == sizes@[at as int]);
            if any_known(longer) {
                let i = choose|i: int| 0 <= i < longer.len() && (#[trigger] longer[i]) is Some;
                if i < at {
                    assert(sizes@.take(at as int)[i] is Some);
                }
            }
            if any_known(sizes@.take(at as int)) {
                let i = choose|i: int|
                    0 <= i < at && (#[trigger] sizes@.take(at as int)[i]) is Some;
                assert(longer[i] is Some);
            }
            if sizes@[at as int] is Some {
                assert(longer[at as int] is Some);
            }
        }
        if let Some(bytes) = sizes[at] {
            readable = true;
            total = total + bytes as u128;
            if total > limit {
                total = limit;
            }
        }
        at = at + 1;
    }
    proof {
        assert(sizes@.take(at as int) =~= sizes@);
    }
    if readable {
        Some(units_of_bytes(total))
    } else {
        None
    }
}

// ---- what a load is triggered with --------------------------------------------------------

/// Each type of model is loaded through the endpoint of what it serves.
pub proof fn law_a_model_is_loaded_through_its_own_endpoint()
    ensures
        trigger_path(ModelType::Llm) == "/v1/chat/completions"@,
        trigger_path(ModelType::Embed) == "/v1/embeddings"@,
        trigger_path(ModelType::Rerank) == "/v1/rerank"@,
        trigger_path(ModelType::Stt) == "/v1/audio/transcriptions"@,
        trigger_path(ModelType::Image) == "/v1/images/generations"@,
{
}

/// Every request names the model it loads, and a picture is asked for at the size that is
/// served.
pub proof fn law_a_request_names_its_model(
    model_type: ModelType,
    model: Seq<char>,
    size: Seq<char>,
)
    ensures
        occurs_in(trigger_json(model_type, model, size), "\"model\":"@ + model),
        model_type == ModelType::Image ==> occurs_in(
            trigger_json(model_type, model, size),
            "\"size\":"@ + size,
        ),
{
    let text = trigger_json(model_type, model, size);
    let part = "\"model\":"@ + model;
    reveal_strlit("\"model\":");
    reveal_strlit("\"size\":");
    reveal_strlit("{\"input\":\"x\",\"model\":");
    reveal_strlit("{\"documents\":[\"a\",\"b\"],\"model\":");
    reveal_strlit("{\"model\":");
    reveal_strlit(",\"prompt\":\"a cube\",\"size\":");
    reveal_strlit("{\"max_tokens\":1,\"messages\":[{\"content\":\"hi\",\"role\":\"user\"}],\"model\":");
    let head = match model_type {
        ModelType::Embed => "{\"input\":\"x\",\"model\":"@,
        ModelType::Rerank => "{\"documents\":[\"a\",\"b\"],\"model\":"@,
        ModelType::Image => "{\"model\":"@,
        _ => "{\"max_tokens\":1,\"messages\":[{\"content\":\"hi\",\"role\":\"user\"}],\"model\":"@,
    };
    let at = head.len() - 8;
    assert(text.subrange(at, at + part.len()) =~= part);
    assert(occurs_at(text, part, at));
    if model_type == ModelType::Image {
        let sized = "\"size\":"@ + size;
        let start = head.len() + model.len() + ",\"prompt\":\"a cube\",\"size\":"@.len() - 7;
        assert(text.subrange(start, start + sized.len()) =~= sized);
        assert(occurs_at(text, sized, start));
    }
}

/// The weight of a command's files is that of all of them whose size is known.
pub proof fn law_every_known_file_weighs(sizes: Seq<Option<u64>>, more: Option<u64>)
    ensures
        known_bytes(sizes.push(more)) == known_bytes(sizes) + match more {
            Some(bytes) => bytes as nat,
            None => 0,
        },
        known_bytes(Seq::empty()) == 0,
{
    assert(sizes.push(more).drop_last() =~= sizes);
}

/// The files whose weights count are all that the command names, where they lie on the host.
pub proof fn law_every_named_file_is_weighed(record: RecordView, policy: PolicyView, i: int)
    requires
        0 <= i < weights_among(words(record.cmd)).len(),
    ensures
        host_weights(record, policy).len() == weights_among(words(record.cmd)).len(),
        host_weights(record, policy)[i] == host_path(
            policy.paths,
            weights_among(words(record.cmd))[i],
        ),
{
}

/// The audio that loads a transcriber is a WAV file of 0.3 s of silence at 16 kHz, whose header
/// says how long it is.
pub proof fn law_the_audio_is_silence()
    ensures
        silent_wav().len() == 9_644,
        silent_wav().take(4) == encode_utf8("RIFF"@),
        silent_wav().subrange(4, 8) == little4(9_636),
        silent_wav().subrange(24, 28) == little4(16_000),
        silent_wav().subrange(40, 44) == little4(9_600),
        forall|i: int| 44 <= i < 9_644 ==> #[trigger] silent_wav()[i] == 0,
{
    reveal_strlit("RIFF");
    reveal_strlit("WAVEfmt ");
    reveal_strlit("data");
    vstd::utf8::is_ascii_chars_encode_utf8("RIFF"@);
    vstd::utf8::is_ascii_chars_encode_utf8("WAVEfmt "@);
    vstd::utf8::is_ascii_chars_encode_utf8("data"@);
    lemma_wav_length();
    assert(silent_wav().take(4) =~= encode_utf8("RIFF"@));
    assert(silent_wav().subrange(4, 8) =~= little4(9_636));
    assert(silent_wav().subrange(24, 28) =~= little4(16_000));
    assert(silent_wav().subrange(40, 44) =~= little4(9_600));
}

/// A number's bytes stand for the number.
pub proof fn law_little_bytes_make_the_number(n: u32, m: u16)
    ensures
        little4(n).len() == 4,
        little4(n)[0] + 256 * little4(n)[1] + 65_536 * little4(n)[2] + 16_777_216 * little4(n)[3]
            == n,
        little2(m).len() == 2,
        little2(m)[0] + 256 * little2(m)[1] == m,
{
}

/// The form names the model and carries the audio.
pub proof fn law_the_form_carries_the_audio(model: Seq<char>, boundary: Seq<char>)
    ensures
        exists|at: int|
            0 <= at <= wav_form(model, boundary).len() - encode_utf8(model).len()
                && #[trigger] wav_form(model, boundary).subrange(
                at,
                at + encode_utf8(model).len(),
            ) == encode_utf8(model),
        exists|at: int|
            0 <= at <= wav_form(model, boundary).len() - silent_wav().len()
                && #[trigger] wav_form(model, boundary).subrange(at, at + silent_wav().len())
                == silent_wav(),
{
    let form = wav_form(model, boundary);
    let head = encode_utf8("--"@) + encode_utf8(boundary) + encode_utf8(
        "\r\nContent-Disposition: form-data; name=\"model\"\r\n\r\n"@,
    );
    let at = head.len() as int;
    assert(form.subrange(at, at + encode_utf8(model).len()) =~= encode_utf8(model));
    let more = head + encode_utf8(model) + encode_utf8("\r\n--"@) + encode_utf8(boundary)
        + encode_utf8(
        "\r\nContent-Disposition: form-data; name=\"file\"; filename=\"a.wav\"\r\nContent-Type: audio/wav\r\n\r\n"@,
    );
    let start = more.len() as int;
    assert(form.subrange(start, start + silent_wav().len()) =~= silent_wav());
}

} // verus!
