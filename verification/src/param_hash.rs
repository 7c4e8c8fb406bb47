//! The memory **param-hash**: a stable key over only the footprint-affecting tokens of a
//! launch command.
//!
//! A measurement is keyed by this hash, so flipping a flag that does *not* affect memory
//! (host and port, the reasoning toggle, sampler knobs) never invalidates a stored
//! measurement, while a real change (`-c`, `-np`, the quant) makes a new key beside the
//! old one.
//!
//! The lists below name flags known not to affect the footprint; every other token stays
//! in the key. A missing entry costs one extra measurement, never a wrong reuse, so an
//! uncertain flag is left out of them.

use sha1::Digest;
use vstd::prelude::*;
use vstd::string::*;
use vstd::utf8::encode_utf8;

use crate::text::{
    fields, is_space, join, joined, lemma_fields_are_runs, lemma_views_push, runs, same,
    split_whitespace, unbroken, views, words,
};

verus! {

/// Flags dropped together with the value that follows them. `-cram` moves host memory
/// only, and the planner reads it from the live command. The step cache of sd-server
/// (`--cache-mode`, `--cache-option`) is deliberately not here: it may hold device memory.
pub open spec fn takes_value(token: Seq<char>) -> bool {
    ||| token == "--host"@
    ||| token == "--port"@
    ||| token == "--listen-ip"@
    ||| token == "--listen-port"@
    ||| token == "--inference-path"@
    ||| token == "--reasoning"@
    ||| token == "--chat-template-file"@
    ||| token == "--cache-reuse"@
    ||| token == "-cram"@
    ||| token == "--cache-ram"@
    ||| token == "--steps"@
    ||| token == "--cfg-scale"@
    ||| token == "--guidance"@
}

/// Flags without a value that are dropped.
pub open spec fn is_bare(token: Seq<char>) -> bool {
    token == "--jinja"@
}

/// The footprint-affecting tokens of a command.
pub open spec fn kept(tokens: Seq<Seq<char>>) -> Seq<Seq<char>>
    decreases tokens.len(),
{
    if tokens.len() == 0 {
        Seq::empty()
    } else if takes_value(tokens[0]) {
        if tokens.len() >= 2 {
            kept(tokens.skip(2))
        } else {
            Seq::empty()
        }
    } else if is_bare(tokens[0]) {
        kept(tokens.skip(1))
    } else {
        seq![tokens[0]] + kept(tokens.skip(1))
    }
}

/// A command reduced to its footprint-affecting tokens, one space between each two.
pub open spec fn memory_text(cmd: Seq<char>) -> Seq<char> {
    joined(kept(words(cmd)), " "@)
}

fn token_takes_value(token: &str) -> (r: bool)
    ensures
        r == takes_value(token@),
{
    same(token, "--host") || same(token, "--port") || same(token, "--listen-ip") || same(
        token,
        "--listen-port",
    ) || same(token, "--inference-path") || same(token, "--reasoning") || same(
        token,
        "--chat-template-file",
    ) || same(token, "--cache-reuse") || same(token, "-cram") || same(token, "--cache-ram") || same(
        token,
        "--steps",
    ) || same(token, "--cfg-scale") || same(token, "--guidance")
}

/// The footprint-affecting tokens of a command, in order.
pub fn memory_tokens(cmd: &str) -> (r: Vec<String>)
    ensures
        views(r@) == kept(words(cmd@)),
{
    let tokens = split_whitespace(cmd);
    let mut r: Vec<String> = Vec::new();
    let mut index: usize = 0;
    let ghost all = words(cmd@);
    proof {
        assert(all.skip(0) =~= all);
        assert(views(r@) + kept(all) =~= kept(all));
    }
    while index < tokens.len()
        invariant
            index <= tokens@.len(),
            views(tokens@) == all,
            all == words(cmd@),
            views(r@) + kept(all.skip(index as int)) == kept(all),
        decreases tokens@.len() - index,
    {
        let token = tokens[index].as_str();
        let ghost rest = all.skip(index as int);
        proof {
            assert(rest[0] == all[index as int]);
            assert(rest.skip(1) =~= all.skip(index + 1));
        }
        if token_takes_value(token) {
            if tokens.len() - index < 2 {
                proof {
                    assert(views(r@) + kept(rest) =~= views(r@));
                }
                return r;
            }
            proof {
                assert(rest.skip(2) =~= all.skip(index + 2));
            }
            index = index + 2;
            continue ;
        }
        if same(token, "--jinja") {
            index = index + 1;
            continue ;
        }
        let owned = tokens[index].clone();
        proof {
            lemma_views_push(r@, owned);
            assert(views(r@).push(owned@) + kept(rest.skip(1)) =~= views(r@) + (seq![owned@] + kept(
                rest.skip(1),
            )));
        }
        r.push(owned);
        index = index + 1;
    }
    proof {
        assert(views(r@) + kept(all.skip(index as int)) =~= views(r@));
    }
    r
}

/// Reduce a launch command to only its footprint-affecting tokens.
pub fn memory_cmd(cmd: &str) -> (r: String)
    ensures
        r@ == memory_text(cmd@),
{
    join(&memory_tokens(cmd), " ")
}

/// The SHA-1 digest of some bytes.
pub uninterp spec fn sha1_digest(bytes: Seq<u8>) -> Seq<u8>;

/// `sha1::Sha1::digest` computes the digest of the whole input: a function of those
/// bytes alone, always twenty bytes long.
#[verifier::external_body]
fn sha1_of(bytes: &[u8]) -> (digest: Vec<u8>)
    ensures
        digest@ == sha1_digest(bytes@),
        digest@.len() == 20,
{
    sha1::Sha1::digest(bytes).to_vec()
}

/// The hexadecimal character for a value below sixteen.
pub open spec fn hex_char(value: u8) -> char {
    if value < 10 {
        (value + 48) as char
    } else {
        (value + 87) as char
    }
}

/// Bytes in hexadecimal, two characters each.
pub open spec fn hex(bytes: Seq<u8>) -> Seq<char>
    decreases bytes.len(),
{
    if bytes.len() == 0 {
        Seq::empty()
    } else {
        hex(bytes.drop_last()).push(hex_char(bytes.last() / 16)).push(hex_char(bytes.last() % 16))
    }
}

fn hex_digit(value: u8) -> (c: char)
    requires
        value < 16,
    ensures
        c == hex_char(value),
{
    if value < 10 {
        (value + 48) as char
    } else {
        (value + 87) as char
    }
}

/// The first six bytes of a digest, in hexadecimal.
pub fn short_key(digest: &Vec<u8>) -> (key: String)
    requires
        digest@.len() >= 6,
    ensures
        key@ == hex(digest@.take(6)),
        key@.len() == 12,
{
    let mut key = String::new();
    let mut at: usize = 0;
    while at < 6
        invariant
            at <= 6 <= digest@.len(),
            key@ == hex(digest@.take(at as int)),
            key@.len() == 2 * at,
        decreases 6 - at,
    {
        let byte = digest[at];
        key.push(hex_digit(byte / 16));
        key.push(hex_digit(byte % 16));
        at = at + 1;
        proof {
            assert(digest@.take(at as int).drop_last() =~= digest@.take(at - 1));
        }
    }
    key
}

/// The key of the footprint that a command has: twelve hexadecimal characters, from the
/// SHA-1 digest of its footprint-affecting tokens.
pub open spec fn param_key(cmd: Seq<char>) -> Seq<char> {
    hex(sha1_digest(encode_utf8(memory_text(cmd))).take(6))
}

/// A 12-hex key identifying a distinct memory footprint.
pub fn param_hash(cmd: &str) -> (key: String)
    ensures
        key@ == param_key(cmd@),
        key@.len() == 12,
{
    let reduced = memory_cmd(cmd);
    let digest = sha1_of(reduced.as_str().as_bytes());
    short_key(&digest)
}

// ---- what the key stands for --------------------------------------------------------

/// No token of the list belongs to a dropped flag.
pub open spec fn none_dropped(tokens: Seq<Seq<char>>) -> bool {
    forall|i: int|
        0 <= i < tokens.len() ==> !takes_value(#[trigger] tokens[i]) && !is_bare(tokens[i])
}

/// The list ends with a whole flag: no dropped flag at its end waits for its value.
pub open spec fn ends_whole(tokens: Seq<Seq<char>>) -> bool
    decreases tokens.len(),
{
    if tokens.len() == 0 {
        true
    } else if takes_value(tokens[0]) {
        tokens.len() >= 2 && ends_whole(tokens.skip(2))
    } else {
        ends_whole(tokens.skip(1))
    }
}

proof fn lemma_kept_drops(tokens: Seq<Seq<char>>)
    ensures
        none_dropped(kept(tokens)),
        forall|i: int|
            0 <= i < kept(tokens).len() ==> tokens.contains(#[trigger] kept(tokens)[i]),
    decreases tokens.len(),
{
    if tokens.len() > 0 {
        if takes_value(tokens[0]) {
            if tokens.len() >= 2 {
                lemma_kept_drops(tokens.skip(2));
                assert forall|i: int| 0 <= i < kept(tokens).len() implies tokens.contains(
                    #[trigger] kept(tokens)[i],
                ) by {
                    let j = choose|j: int|
                        0 <= j < tokens.skip(2).len() && tokens.skip(2)[j] == kept(tokens)[i];
                    assert(tokens[j + 2] == kept(tokens)[i]);
                }
            }
        } else {
            lemma_kept_drops(tokens.skip(1));
            let rest = kept(tokens.skip(1));
            assert forall|i: int| 0 <= i < kept(tokens).len() implies tokens.contains(
                #[trigger] kept(tokens)[i],
            ) by {
                if is_bare(tokens[0]) || i > 0 {
                    let k = if is_bare(tokens[0]) {
                        i
                    } else {
                        i - 1
                    };
                    assert(kept(tokens)[i] == rest[k]);
                    let j = choose|j: int|
                        0 <= j < tokens.skip(1).len() && tokens.skip(1)[j] == rest[k];
                    assert(tokens[j + 1] == kept(tokens)[i]);
                } else {
                    assert(tokens[0] == kept(tokens)[i]);
                }
            }
            assert forall|i: int| 0 <= i < kept(tokens).len() implies !takes_value(
                #[trigger] kept(tokens)[i],
            ) && !is_bare(kept(tokens)[i]) by {
                if is_bare(tokens[0]) {
                    assert(kept(tokens)[i] == rest[i]);
                } else if i > 0 {
                    assert(kept(tokens)[i] == rest[i - 1]);
                }
            }
        }
    }
}

proof fn lemma_kept_keeps(tokens: Seq<Seq<char>>)
    requires
        none_dropped(tokens),
    ensures
        kept(tokens) == tokens,
    decreases tokens.len(),
{
    if tokens.len() > 0 {
        let rest = tokens.skip(1);
        assert forall|i: int| 0 <= i < rest.len() implies !takes_value(#[trigger] rest[i])
            && !is_bare(rest[i]) by {
            assert(rest[i] == tokens[i + 1]);
        }
        lemma_kept_keeps(rest);
        assert(!takes_value(tokens[0]) && !is_bare(tokens[0]));
        assert(kept(tokens) =~= tokens);
    } else {
        assert(kept(tokens) =~= tokens);
    }
}

proof fn lemma_kept_splits(before: Seq<Seq<char>>, after: Seq<Seq<char>>)
    requires
        ends_whole(before),
    ensures
        kept(before + after) == kept(before) + kept(after),
    decreases before.len(),
{
    let both = before + after;
    if before.len() == 0 {
        assert(both =~= after);
        assert(kept(before) + kept(after) =~= kept(after));
    } else if takes_value(before[0]) {
        assert(both.skip(2) =~= before.skip(2) + after);
        lemma_kept_splits(before.skip(2), after);
    } else {
        assert(both.skip(1) =~= before.skip(1) + after);
        lemma_kept_splits(before.skip(1), after);
        assert(kept(both) =~= kept(before) + kept(after));
    }
}

proof fn lemma_runs_append(s: Seq<char>, t: Seq<char>, separator: spec_fn(char) -> bool)
    requires
        unbroken(t, separator),
    ensures
        runs(s + t, separator) == (runs(s, separator).0, runs(s, separator).1 + t),
    decreases t.len(),
{
    let (closed, open) = runs(s, separator);
    if t.len() == 0 {
        assert(s + t =~= s);
        assert(open + t =~= open);
    } else {
        lemma_runs_append(s, t.drop_last(), separator);
        assert((s + t).drop_last() =~= s + t.drop_last());
        assert(!separator(t[t.len() - 1]));
        assert((open + t.drop_last()).push(t.last()) =~= open + t);
    }
}

proof fn lemma_joined_runs(parts: Seq<Seq<char>>)
    requires
        parts.len() > 0,
        forall|i: int|
            0 <= i < parts.len() ==> (#[trigger] parts[i]).len() > 0 && unbroken(
                parts[i],
                |c: char| is_space(c),
            ),
    ensures
        runs(joined(parts, " "@), |c: char| is_space(c)) == (parts.drop_last(), parts.last()),
    decreases parts.len(),
{
    let separator = |c: char| is_space(c);
    if parts.len() == 1 {
        lemma_runs_append(Seq::empty(), parts[0], separator);
        assert(Seq::<char>::empty() + parts[0] =~= parts[0]);
        assert(parts.drop_last() =~= Seq::<Seq<char>>::empty());
    } else {
        let fewer = parts.drop_last();
        assert forall|i: int| 0 <= i < fewer.len() implies (#[trigger] fewer[i]).len() > 0
            && unbroken(fewer[i], separator) by {
            assert(fewer[i] == parts[i]);
        }
        lemma_joined_runs(fewer);
        reveal_strlit(" ");
        let head = joined(fewer, " "@);
        let spaced = head + " "@;
        assert(spaced.drop_last() =~= head);
        assert(spaced.last() == ' ');
        assert(fewer.last() == parts[parts.len() - 2]);
        assert(fewer.drop_last().push(fewer.last()) =~= fewer);
        assert(runs(spaced, separator) == (fewer, Seq::<char>::empty()));
        assert(unbroken(parts[parts.len() - 1], separator));
        lemma_runs_append(spaced, parts.last(), separator);
        assert(Seq::<char>::empty() + parts.last() =~= parts.last());
    }
}

/// Tokens joined by single spaces are read back as they are.
pub proof fn law_joined_tokens_are_read_back(parts: Seq<Seq<char>>)
    requires
        forall|i: int|
            0 <= i < parts.len() ==> (#[trigger] parts[i]).len() > 0 && unbroken(
                parts[i],
                |c: char| is_space(c),
            ),
    ensures
        words(joined(parts, " "@)) == parts,
{
    if parts.len() > 0 {
        lemma_joined_runs(parts);
        assert(parts[parts.len() - 1].len() > 0);
        assert(parts.drop_last().push(parts.last()) =~= parts);
    } else {
        assert(words(joined(parts, " "@)) =~= parts);
    }
}

/// Reducing a command twice is reducing it once, so the reduced command has the same key
/// as the command it came from.
pub proof fn law_memory_cmd_is_idempotent(cmd: Seq<char>)
    ensures
        memory_text(memory_text(cmd)) == memory_text(cmd),
        param_key(memory_text(cmd)) == param_key(cmd),
{
    let tokens = words(cmd);
    lemma_fields_are_runs(cmd, |c: char| is_space(c));
    lemma_kept_drops(tokens);
    assert forall|i: int| 0 <= i < kept(tokens).len() implies (#[trigger] kept(tokens)[i]).len() > 0
        && unbroken(kept(tokens)[i], |c: char| is_space(c)) by {
        let j = choose|j: int| 0 <= j < tokens.len() && tokens[j] == kept(tokens)[i];
        assert(tokens[j] == fields(cmd, |c: char| is_space(c))[j]);
    }
    law_joined_tokens_are_read_back(kept(tokens));
    lemma_kept_keeps(kept(tokens));
}

/// Adding, changing or removing a footprint-neutral flag with its value never changes the
/// key.
pub proof fn law_neutral_flag_keeps_the_key(
    with: Seq<char>,
    without: Seq<char>,
    before: Seq<Seq<char>>,
    flag: Seq<char>,
    value: Seq<char>,
    after: Seq<Seq<char>>,
)
    requires
        words(with) == before + seq![flag, value] + after,
        words(without) == before + after,
        takes_value(flag),
        ends_whole(before),
    ensures
        memory_text(with) == memory_text(without),
        param_key(with) == param_key(without),
{
    let tail = seq![flag, value] + after;
    assert(before + seq![flag, value] + after =~= before + tail);
    lemma_kept_splits(before, tail);
    lemma_kept_splits(before, after);
    assert(tail.skip(2) =~= after);
}

/// Adding or removing a footprint-neutral bare flag never changes the key.
pub proof fn law_bare_flag_keeps_the_key(
    with: Seq<char>,
    without: Seq<char>,
    before: Seq<Seq<char>>,
    flag: Seq<char>,
    after: Seq<Seq<char>>,
)
    requires
        words(with) == before + seq![flag] + after,
        words(without) == before + after,
        is_bare(flag),
        ends_whole(before),
    ensures
        memory_text(with) == memory_text(without),
        param_key(with) == param_key(without),
{
    let tail = seq![flag] + after;
    assert(before + seq![flag] + after =~= before + tail);
    lemma_kept_splits(before, tail);
    lemma_kept_splits(before, after);
    assert(tail.skip(1) =~= after);
    reveal_strlit("--jinja");
    reveal_strlit("--host");
    reveal_strlit("--port");
    reveal_strlit("--listen-ip");
    reveal_strlit("--listen-port");
    reveal_strlit("--inference-path");
    reveal_strlit("--reasoning");
    reveal_strlit("--chat-template-file");
    reveal_strlit("--cache-reuse");
    reveal_strlit("-cram");
    reveal_strlit("--cache-ram");
    reveal_strlit("--steps");
    reveal_strlit("--cfg-scale");
    reveal_strlit("--guidance");
    assert("--jinja"@[2] == 'j');
    assert("--steps"@[2] == 's');
    assert(!takes_value(flag));
}

/// Two commands with the same footprint-affecting tokens share their key, and two whose
/// keys differ have different ones: a token that no list names is never dropped.
pub proof fn law_key_follows_the_kept_tokens(left: Seq<char>, right: Seq<char>)
    ensures
        kept(words(left)) == kept(words(right)) ==> param_key(left) == param_key(right),
        none_dropped(words(left)) ==> kept(words(left)) == words(left),
{
    if none_dropped(words(left)) {
        lemma_kept_keeps(words(left));
    }
}

// ---- what stays and what goes, by name --------------------------------------------------------

/// The server flags and sampler knobs that never move device memory, each with a value.
pub open spec fn neutral_flags() -> Set<Seq<char>> {
    set![
        "--host"@,
        "--port"@,
        "--listen-ip"@,
        "--listen-port"@,
        "--inference-path"@,
        "--reasoning"@,
        "--chat-template-file"@,
        "--cache-reuse"@,
        "-cram"@,
        "--cache-ram"@,
        "--steps"@,
        "--cfg-scale"@,
        "--guidance"@,
    ]
}

/// A list that does not end with such a flag leaves none waiting for its value.
proof fn lemma_ends_whole(tokens: Seq<Seq<char>>)
    requires
        tokens.len() > 0 ==> !takes_value(tokens.last()),
    ensures
        ends_whole(tokens),
    decreases tokens.len(),
{
    if tokens.len() > 0 {
        if takes_value(tokens[0]) {
            if tokens.len() > 2 {
                assert(tokens.skip(2).last() == tokens.last());
            }
            lemma_ends_whole(tokens.skip(2));
        } else {
            if tokens.len() > 1 {
                assert(tokens.skip(1).last() == tokens.last());
            }
            lemma_ends_whole(tokens.skip(1));
        }
    }
}

/// Nothing but the neutral flags, their values and `--jinja` leaves the key: any other token
/// that does not follow such a flag is kept, and in its place between what is kept of the
/// tokens before it and after it.
pub proof fn law_every_other_token_is_kept(
    cmd: Seq<char>,
    before: Seq<Seq<char>>,
    token: Seq<char>,
    after: Seq<Seq<char>>,
)
    requires
        words(cmd) == before + seq![token] + after,
        !neutral_flags().contains(token),
        token != "--jinja"@,
        before.len() > 0 ==> !neutral_flags().contains(before.last()),
    ensures
        kept(words(cmd)) == kept(before) + seq![token] + kept(after),
        kept(words(cmd)).contains(token),
{
    lemma_ends_whole(before);
    let tail = seq![token] + after;
    assert(before + seq![token] + after =~= before + tail);
    lemma_kept_splits(before, tail);
    assert(tail.skip(1) =~= after);
    assert(kept(before) + (seq![token] + kept(after)) =~= kept(before) + seq![token] + kept(
        after,
    ));
    assert(kept(words(cmd))[kept(before).len() as int] == token);
}

/// A footprint is reused only for the same memory configuration: two commands that differ in
/// the value of a flag which is not neutral (the context, the slots, the offload, a cache's
/// type, the weights) have different memory commands.
pub proof fn law_a_changed_value_changes_the_memory_command(
    left: Seq<char>,
    right: Seq<char>,
    before: Seq<Seq<char>>,
    flag: Seq<char>,
    a: Seq<char>,
    b: Seq<char>,
    after: Seq<Seq<char>>,
)
    requires
        words(left) == before + seq![flag, a] + after,
        words(right) == before + seq![flag, b] + after,
        a != b,
        before.len() > 0 ==> !neutral_flags().contains(before.last()),
        !neutral_flags().contains(flag),
        !neutral_flags().contains(a) && a != "--jinja"@,
        !neutral_flags().contains(b) && b != "--jinja"@,
    ensures
        memory_text(left) != memory_text(right),
{
    let longer = before.push(flag);
    assert(longer + seq![a] + after =~= before + seq![flag, a] + after);
    assert(longer + seq![b] + after =~= before + seq![flag, b] + after);
    law_every_other_token_is_kept(left, longer, a, after);
    law_every_other_token_is_kept(right, longer, b, after);
    law_memory_text_tells_the_kept_tokens(left);
    law_memory_text_tells_the_kept_tokens(right);
    let at = kept(longer).len() as int;
    assert(kept(words(left))[at] == a);
    assert(kept(words(right))[at] == b);
}

/// A memory command is read back as the tokens that were kept.
pub proof fn law_memory_text_tells_the_kept_tokens(cmd: Seq<char>)
    ensures
        words(memory_text(cmd)) == kept(words(cmd)),
{
    let tokens = words(cmd);
    lemma_fields_are_runs(cmd, |c: char| is_space(c));
    lemma_kept_drops(tokens);
    assert forall|i: int| 0 <= i < kept(tokens).len() implies (#[trigger] kept(tokens)[i]).len() > 0
        && unbroken(kept(tokens)[i], |c: char| is_space(c)) by {
        let j = choose|j: int| 0 <= j < tokens.len() && tokens[j] == kept(tokens)[i];
        assert(tokens[j] == fields(cmd, |c: char| is_space(c))[j]);
    }
    law_joined_tokens_are_read_back(kept(tokens));
}

/// The context of a command is part of its key, however it is written.
pub proof fn law_a_changed_context_changes_the_memory_command(
    left: Seq<char>,
    right: Seq<char>,
    before: Seq<Seq<char>>,
    flag: Seq<char>,
    a: Seq<char>,
    b: Seq<char>,
    after: Seq<Seq<char>>,
)
    requires
        words(left) == before + seq![flag, a] + after,
        words(right) == before + seq![flag, b] + after,
        a != b,
        flag == "-c"@ || flag == "--ctx-size"@ || flag == "-np"@ || flag == "--parallel"@ || flag
            == "-ngl"@ || flag == "-ctk"@ || flag == "-ctv"@ || flag == "-m"@,
        before.len() > 0 ==> !neutral_flags().contains(before.last()),
        !neutral_flags().contains(a) && a != "--jinja"@,
        !neutral_flags().contains(b) && b != "--jinja"@,
    ensures
        memory_text(left) != memory_text(right),
{
    lemma_memory_flags(flag);
    law_a_changed_value_changes_the_memory_command(left, right, before, flag, a, b, after);
}

proof fn lemma_memory_flags(flag: Seq<char>)
    requires
        flag == "-c"@ || flag == "--ctx-size"@ || flag == "-np"@ || flag == "--parallel"@ || flag
            == "-ngl"@ || flag == "-ctk"@ || flag == "-ctv"@ || flag == "-m"@,
    ensures
        !neutral_flags().contains(flag),
{
    reveal_strlit("-c");
    reveal_strlit("--ctx-size");
    reveal_strlit("-np");
    reveal_strlit("--parallel");
    reveal_strlit("-ngl");
    reveal_strlit("-ctk");
    reveal_strlit("-ctv");
    reveal_strlit("-m");
    reveal_strlit("--host");
    reveal_strlit("--port");
    reveal_strlit("--listen-ip");
    reveal_strlit("--listen-port");
    reveal_strlit("--inference-path");
    reveal_strlit("--reasoning");
    reveal_strlit("--chat-template-file");
    reveal_strlit("--cache-reuse");
    reveal_strlit("-cram");
    reveal_strlit("--cache-ram");
    reveal_strlit("--steps");
    reveal_strlit("--cfg-scale");
    reveal_strlit("--guidance");
    assert(flag.len() <= 4 || (flag.len() == 10 && (flag[2] == 'c' || flag[2] == 'p')));
    assert forall|other: Seq<char>| #[trigger] neutral_flags().contains(other) implies other.len()
        > 4 && (other.len() != 10 || other[2] == 'g') by {}
}

/// A neutral flag and its value never reach the key, by name: with either of two values, or
/// without the flag, a command has the same one.
pub proof fn law_neutral_flags_never_reach_the_key(
    with: Seq<char>,
    without: Seq<char>,
    before: Seq<Seq<char>>,
    flag: Seq<char>,
    value: Seq<char>,
    after: Seq<Seq<char>>,
)
    requires
        words(with) == before + seq![flag, value] + after,
        words(without) == before + after,
        neutral_flags().contains(flag),
        before.len() > 0 ==> !neutral_flags().contains(before.last()),
    ensures
        memory_text(with) == memory_text(without),
        param_key(with) == param_key(without),
{
    lemma_ends_whole(before);
    law_neutral_flag_keeps_the_key(with, without, before, flag, value, after);
}

/// The template toggle never reaches the key.
pub proof fn law_jinja_never_reaches_the_key(
    with: Seq<char>,
    without: Seq<char>,
    before: Seq<Seq<char>>,
    after: Seq<Seq<char>>,
)
    requires
        words(with) == before + seq!["--jinja"@] + after,
        words(without) == before + after,
        before.len() > 0 ==> !neutral_flags().contains(before.last()),
    ensures
        memory_text(with) == memory_text(without),
        param_key(with) == param_key(without),
{
    lemma_ends_whole(before);
    law_bare_flag_keeps_the_key(with, without, before, "--jinja"@, after);
}

/// The sixteen hexadecimal characters.
pub open spec fn hex_digits() -> Seq<char> {
    seq!['0', '1', '2', '3', '4', '5', '6', '7', '8', '9', 'a', 'b', 'c', 'd', 'e', 'f']
}

/// Every byte is two hexadecimal characters, the higher one first.
pub proof fn law_a_byte_is_two_hexadecimal_characters(bytes: Seq<u8>, i: int)
    requires
        0 <= i < bytes.len(),
    ensures
        hex(bytes).len() == 2 * bytes.len(),
        hex(bytes)[2 * i] == hex_digits()[bytes[i] as int / 16],
        hex(bytes)[2 * i + 1] == hex_digits()[bytes[i] as int % 16],
    decreases bytes.len(),
{
    let fewer = bytes.drop_last();
    let last = bytes.last();
    lemma_hex_length(fewer);
    if i < fewer.len() {
        law_a_byte_is_two_hexadecimal_characters(fewer, i);
    } else {
        lemma_hex_char((last / 16) as int);
        lemma_hex_char((last % 16) as int);
    }
}

proof fn lemma_hex_length(bytes: Seq<u8>)
    ensures
        hex(bytes).len() == 2 * bytes.len(),
    decreases bytes.len(),
{
    if bytes.len() > 0 {
        lemma_hex_length(bytes.drop_last());
    }
}

proof fn lemma_hex_char(value: int)
    requires
        0 <= value < 16,
    ensures
        hex_char(value as u8) == hex_digits()[value],
{
}

/// Commands whose digests differ in their first six bytes have different keys.
pub proof fn law_keys_tell_digests_apart(a: Seq<char>, b: Seq<char>, i: int)
    requires
        0 <= i < 6,
        sha1_digest(encode_utf8(memory_text(a))).len() >= 6,
        sha1_digest(encode_utf8(memory_text(b))).len() >= 6,
        sha1_digest(encode_utf8(memory_text(a)))[i] != sha1_digest(encode_utf8(memory_text(b)))[i],
    ensures
        param_key(a) != param_key(b),
        param_key(a).len() == 12,
{
    let left = sha1_digest(encode_utf8(memory_text(a))).take(6);
    let right = sha1_digest(encode_utf8(memory_text(b))).take(6);
    law_a_byte_is_two_hexadecimal_characters(left, i);
    law_a_byte_is_two_hexadecimal_characters(right, i);
    let x = left[i] as int;
    let y = right[i] as int;
    if param_key(a) == param_key(b) {
        assert(hex_digits()[x / 16] == hex_digits()[y / 16]);
        assert(hex_digits()[x % 16] == hex_digits()[y % 16]);
        assert(x / 16 == y / 16 && x % 16 == y % 16);
    }
}

} // verus!
