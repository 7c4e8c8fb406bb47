//! Splicing the generated block into the live llama-swap config: anchored on the
//! generated marker, so that a regeneration replaces the last one cleanly, and falling
//! back to a `matrix:` or `groups:` block for the first cutover.

use vstd::prelude::*;
use vstd::string::*;

use crate::text::{
    back_of, chars_of, front_of, is_space, matches_at, same, starts, text_between, trim, trim_back,
    trim_both, trim_front,
};

verus! {

// ---- anchors ------------------------------------------------------------------------------

/// A kind of line that a generated block may take the place of.
#[derive(Debug, Clone, Copy, PartialEq, Eq, Structural)]
pub enum Landmark {
    /// The marker of a generated block, whoever generated it.
    Marker,
    /// A top-level `matrix:` key.
    Matrix,
    /// A top-level `groups:` key.
    Groups,
}

/// A line is such a landmark. A top-level key has no indentation.
pub open spec fn is_landmark(landmark: Landmark, line: Seq<char>) -> bool {
    match landmark {
        Landmark::Marker => starts(trim_front(line), "# ==== GENERATED matrix block"@),
        Landmark::Matrix => starts(line, "matrix:"@),
        Landmark::Groups => starts(line, "groups:"@),
    }
}

/// Where the line that starts at `from` ends: at its newline, or at the end of the text.
pub open spec fn line_end(text: Seq<char>, from: nat) -> nat
    decreases text.len() - from,
{
    if from >= text.len() || text[from as int] == '\n' {
        from
    } else {
        line_end(text, from + 1)
    }
}

/// Where the first line of the landmark's kind starts, among the lines from the one that
/// starts at `from` on.
pub open spec fn landmark_from(text: Seq<char>, landmark: Landmark, from: nat) -> Option<nat>
    decreases text.len() + 1 - from,
{
    let end = line_end(text, from);
    if from >= text.len() || end < from || end > text.len() {
        None
    } else if is_landmark(landmark, text.subrange(from as int, end as int)) {
        Some(from)
    } else {
        landmark_from(text, landmark, end + 1)
    }
}

pub proof fn lemma_line_end(text: Seq<char>, from: nat)
    requires
        from <= text.len(),
    ensures
        from <= line_end(text, from) <= text.len(),
        line_end(text, from) < text.len() ==> text[line_end(text, from) as int] == '\n',
        forall|i: int| from <= i < line_end(text, from) ==> text[i] != '\n',
    decreases text.len() - from,
{
    if from < text.len() && text[from as int] != '\n' {
        lemma_line_end(text, from + 1);
    }
}

/// Where a generated block starts in a config: at a generated marker, else at a top-level
/// `matrix:`, else at a top-level `groups:`, else at the end.
pub open spec fn anchor_of(config: Seq<char>) -> nat {
    match landmark_from(config, Landmark::Marker, 0) {
        Some(at) => at,
        None => match landmark_from(config, Landmark::Matrix, 0) {
            Some(at) => at,
            None => match landmark_from(config, Landmark::Groups, 0) {
                Some(at) => at,
                None => config.len(),
            },
        },
    }
}

/// A config with a block spliced in: everything up to the anchor, then the block, which is
/// the last thing in it.
pub open spec fn spliced(config: Seq<char>, block: Seq<char>) -> Seq<char> {
    let head = trim_back(config.take(anchor_of(config) as int));
    if head.len() == 0 {
        block
    } else {
        head + "\n\n"@ + block
    }
}

/// The block in a config: from a generated marker, or else a top-level `matrix:`, to the
/// end.
pub open spec fn block_in(config: Seq<char>) -> Option<Seq<char>> {
    match landmark_from(config, Landmark::Marker, 0) {
        Some(at) => Some(config.skip(at as int)),
        None => match landmark_from(config, Landmark::Matrix, 0) {
            Some(at) => Some(config.skip(at as int)),
            None => None,
        },
    }
}

fn has_landmark(landmark: Landmark, chars: &Vec<char>, from: usize, to: usize) -> (r: bool)
    requires
        from <= to <= chars@.len(),
    ensures
        r == is_landmark(landmark, chars@.subrange(from as int, to as int)),
{
    let start: usize = match landmark {
        Landmark::Marker => front_of(chars.as_slice(), from, to),
        Landmark::Matrix | Landmark::Groups => from,
    };
    let part = match landmark {
        Landmark::Marker => chars_of("# ==== GENERATED matrix block"),
        Landmark::Matrix => chars_of("matrix:"),
        Landmark::Groups => chars_of("groups:"),
    };
    let ghost line = chars@.subrange(start as int, to as int);
    if part.len() > to - start {
        return false;
    }
    let r = matches_at(chars.as_slice(), part.as_slice(), start);
    proof {
        assert(line.subrange(0, part@.len() as int) =~= chars@.subrange(
            start as int,
            start + part@.len(),
        ));
    }
    r
}

/// Where the first line of the landmark's kind starts.
fn line_offset(chars: &Vec<char>, landmark: Landmark) -> (r: Option<usize>)
    ensures
        match r {
            Some(at) => landmark_from(chars@, landmark, 0) == Some(at as nat) && at < chars@.len(),
            None => landmark_from(chars@, landmark, 0) is None,
        },
{
    let length: usize = chars.len();
    let mut from: usize = 0;
    while from < length
        invariant
            length == chars@.len(),
            from <= length,
            landmark_from(chars@, landmark, 0) == landmark_from(chars@, landmark, from as nat),
        decreases length - from,
    {
        let mut end: usize = from;
        while end < length && chars[end] != '\n'
            invariant
                length == chars@.len(),
                from <= end <= length,
                line_end(chars@, from as nat) == line_end(chars@, end as nat),
            decreases length - end,
        {
            end = end + 1;
        }
        if has_landmark(landmark, chars, from, end) {
            return Some(from);
        }
        if end == length {
            proof {
                assert(landmark_from(chars@, landmark, (end + 1) as nat) is None);
            }
            return None;
        }
        from = end + 1;
    }
    None
}

fn find_anchor(chars: &Vec<char>) -> (anchor: usize)
    ensures
        anchor == anchor_of(chars@),
        anchor <= chars@.len(),
{
    if let Some(at) = line_offset(chars, Landmark::Marker) {
        return at;
    }
    if let Some(at) = line_offset(chars, Landmark::Matrix) {
        return at;
    }
    if let Some(at) = line_offset(chars, Landmark::Groups) {
        return at;
    }
    chars.len()
}

/// Produce the new config text: everything up to the anchor, then the block. The `matrix:`
/// block must be the last top-level block, so nothing follows it.
pub fn splice(config_text: &str, block: &str) -> (text: String)
    ensures
        text@ == spliced(config_text@, block@),
{
    let chars = chars_of(config_text);
    let anchor: usize = find_anchor(&chars);
    let end: usize = back_of(chars.as_slice(), 0, anchor);
    proof {
        assert(chars@.subrange(0, anchor as int) =~= config_text@.take(anchor as int));
    }
    if end == 0 {
        return block.to_owned();
    }
    text_between(chars.as_slice(), 0, end).concat("\n\n").concat(block)
}

/// The current block in a config, or `None` if there is no matrix block yet.
pub fn existing_block(config_text: &str) -> (r: Option<String>)
    ensures
        match r {
            Some(block) => block_in(config_text@) == Some(block@),
            None => block_in(config_text@) is None,
        },
{
    let chars = chars_of(config_text);
    let length: usize = chars.len();
    if let Some(at) = line_offset(&chars, Landmark::Marker) {
        return Some(text_between(chars.as_slice(), at, length));
    }
    if let Some(at) = line_offset(&chars, Landmark::Matrix) {
        return Some(text_between(chars.as_slice(), at, length));
    }
    None
}

/// Is the block in a config the one a fresh build makes, white space at the ends aside?
pub fn in_sync(existing: Option<&String>, block: &str) -> (r: bool)
    ensures
        r == (existing is Some && trim_both(existing->0@) == trim_both(block@)),
{
    match existing {
        Some(current) => same(trim(current.as_str()).as_str(), trim(block).as_str()),
        None => false,
    }
}

// ---- what a splice promises -----------------------------------------------------------------

proof fn lemma_trim_front_prefix(whole: Seq<char>, length: int, part: Seq<char>)
    requires
        0 <= length <= whole.len(),
        part.len() > 0,
        starts(trim_front(whole.take(length)), part),
    ensures
        starts(trim_front(whole), part),
    decreases length,
{
    let prefix = whole.take(length);
    if length > 0 && is_space(whole[0]) {
        assert(prefix.skip(1) =~= whole.skip(1).take(length - 1));
        lemma_trim_front_prefix(whole.skip(1), length - 1, part);
    } else {
        assert(trim_front(prefix) == prefix);
        if length > 0 {
            assert(trim_front(whole) == whole);
            assert(whole.subrange(0, part.len() as int) =~= prefix.subrange(0, part.len() as int));
        }
    }
}

proof fn lemma_marker_length()
    ensures
        "# ==== GENERATED matrix block"@.len() == 29,
        !is_landmark(Landmark::Marker, Seq::<char>::empty()),
{
    reveal_strlit("# ==== GENERATED matrix block");
}

/// Cutting a text off before its first marker leaves no marker.
proof fn lemma_cut_has_no_marker(text: Seq<char>, cut: nat, from: nat)
    requires
        cut <= text.len(),
        match landmark_from(text, Landmark::Marker, from) {
            Some(at) => cut <= at,
            None => true,
        },
    ensures
        landmark_from(text.take(cut as int), Landmark::Marker, from) is None,
    decreases text.len() + 1 - from,
{
    let short = text.take(cut as int);
    if from < cut {
        lemma_line_end(text, from);
        lemma_line_end(short, from);
        let end = line_end(text, from);
        let short_end = line_end(short, from);
        let line = text.subrange(from as int, end as int);
        let short_line = short.subrange(from as int, short_end as int);
        assert(!is_landmark(Landmark::Marker, line));
        lemma_marker_length();
        if end < cut {
            assert(short[end as int] == '\n');
            if short_end < end {
                assert(text[short_end as int] == '\n');
            }
            if short_end > end {
                assert(short[end as int] != '\n');
            }
            assert(short_end == end);
            assert(short_line =~= line);
            lemma_cut_has_no_marker(text, cut, end + 1);
        } else {
            if short_end < cut {
                assert(text[short_end as int] == '\n');
            }
            assert(short_end == cut);
            assert(landmark_from(short, Landmark::Marker, short_end + 1) is None);
            assert(short_line =~= line.take(cut - from));
            if is_landmark(Landmark::Marker, short_line) {
                lemma_trim_front_prefix(line, cut - from, "# ==== GENERATED matrix block"@);
            }
        }
    }
}

/// A text without a marker, then a newline: the first marker is that of what follows.
proof fn lemma_marker_after(head: Seq<char>, tail: Seq<char>, from: nat)
    requires
        from <= head.len(),
        landmark_from(head, Landmark::Marker, from) is None,
    ensures
        landmark_from(head.push('\n') + tail, Landmark::Marker, from) == landmark_from(
            head.push('\n') + tail,
            Landmark::Marker,
            head.len() + 1,
        ),
    decreases head.len() + 1 - from,
{
    let text = head.push('\n') + tail;
    lemma_line_end(text, from);
    lemma_line_end(head, from);
    let end = line_end(text, from);
    let head_end = line_end(head, from);
    if end < head_end {
        assert(head[end as int] == '\n');
    }
    if end > head_end {
        if head_end < head.len() {
            assert(text[head_end as int] == '\n');
        } else {
            assert(text[head.len() as int] == '\n');
        }
    }
    assert(end == head_end);
    let line = text.subrange(from as int, end as int);
    assert(line =~= head.subrange(from as int, end as int));
    lemma_marker_length();
    if from == head.len() {
        assert(line =~= Seq::<char>::empty());
    }
    assert(!is_landmark(Landmark::Marker, line));
    if end < head.len() {
        lemma_marker_after(head, tail, end + 1);
    }
}

proof fn lemma_trim_back_is_prefix(s: Seq<char>)
    ensures
        trim_back(s).len() <= s.len(),
        trim_back(s) == s.take(trim_back(s).len() as int),
        trim_back(trim_back(s)) == trim_back(s),
    decreases s.len(),
{
    if s.len() > 0 && is_space(s.last()) {
        lemma_trim_back_is_prefix(s.drop_last());
        assert(s.drop_last().take(trim_back(s).len() as int) =~= s.take(trim_back(s).len() as int));
    } else {
        assert(s.take(s.len() as int) =~= s);
    }
}

/// The head that a splice keeps.
proof fn lemma_kept_head(config: Seq<char>) -> (head: Seq<char>)
    ensures
        head == trim_back(config.take(anchor_of(config) as int)),
        landmark_from(head, Landmark::Marker, 0) is None,
        trim_back(head) == head,
{
    let anchor = anchor_of(config);
    lemma_landmark_in_range(config, Landmark::Marker, 0);
    lemma_landmark_in_range(config, Landmark::Matrix, 0);
    lemma_landmark_in_range(config, Landmark::Groups, 0);
    let head = trim_back(config.take(anchor as int));
    lemma_trim_back_is_prefix(config.take(anchor as int));
    assert(config.take(anchor as int).take(head.len() as int) =~= config.take(head.len() as int));
    lemma_cut_has_no_marker(config, head.len(), 0);
    head
}

proof fn lemma_landmark_in_range(text: Seq<char>, landmark: Landmark, from: nat)
    ensures
        match landmark_from(text, landmark, from) {
            Some(at) => at < text.len(),
            None => true,
        },
    decreases text.len() + 1 - from,
{
    if from < text.len() {
        lemma_line_end(text, from);
        lemma_landmark_in_range(text, landmark, line_end(text, from) + 1);
    }
}

/// A generated block starts where it says.
proof fn lemma_block_is_found(before: Seq<char>, block: Seq<char>)
    requires
        starts(block, "# ==== GENERATED matrix block"@),
    ensures
        landmark_from(before + block, Landmark::Marker, before.len()) == Some(before.len()),
{
    let text = before + block;
    let from = before.len();
    let marker = "# ==== GENERATED matrix block"@;
    reveal_strlit("# ==== GENERATED matrix block");
    lemma_line_end(text, from);
    let end = line_end(text, from);
    if end < from + 29 {
        let i = end - from;
        assert(text[end as int] == '\n');
        assert(text[end as int] == block[i]);
        assert(block.subrange(0, 29)[i] == marker[i]);
        assert(marker[i] != '\n');
    }
    let line = text.subrange(from as int, end as int);
    assert(line[0] == block.subrange(0, 29)[0]);
    assert(line[0] == '#');
    assert(trim_front(line) == line);
    assert(line.subrange(0, 29) =~= block.subrange(0, 29));
}

/// A regeneration replaces the last block cleanly: splicing a block into a config that holds a
/// generated one is splicing it into the config as it was before.
pub proof fn law_a_splice_replaces_the_last(config: Seq<char>, last: Seq<char>, block: Seq<char>)
    requires
        starts(last, "# ==== GENERATED matrix block"@),
    ensures
        spliced(spliced(config, last), block) == spliced(config, block),
{
    let text = spliced(config, last);
    let head = lemma_kept_head(config);
    lemma_spliced_marker(config, last);
    if head.len() == 0 {
        assert(text.take(0) =~= Seq::<char>::empty());
    } else {
        reveal_strlit("\n\n");
        let spaced = head + "\n\n"@;
        assert(text.take((head.len() + 2) as int) =~= spaced);
        assert(spaced.drop_last() =~= head.push('\n'));
        assert(spaced.last() == '\n');
        assert(head.push('\n').drop_last() =~= head);
        assert(head.push('\n').last() == '\n');
        assert(trim_back(head.push('\n')) == trim_back(head));
        assert(trim_back(spaced) == trim_back(head.push('\n')));
    }
}

/// Splicing a generated block in twice is splicing it in once.
pub proof fn law_splice_is_idempotent(config: Seq<char>, block: Seq<char>)
    requires
        starts(block, "# ==== GENERATED matrix block"@),
    ensures
        spliced(spliced(config, block), block) == spliced(config, block),
{
    law_a_splice_replaces_the_last(config, block, block);
}

/// Where the marker is once a generated block has been spliced in.
proof fn lemma_spliced_marker(config: Seq<char>, block: Seq<char>)
    requires
        starts(block, "# ==== GENERATED matrix block"@),
    ensures
        ({
            let head = trim_back(config.take(anchor_of(config) as int));
            landmark_from(spliced(config, block), Landmark::Marker, 0) == Some(
                if head.len() == 0 {
                    0nat
                } else {
                    head.len() + 2
                },
            )
        }),
{
    let text = spliced(config, block);
    let head = lemma_kept_head(config);
    if head.len() == 0 {
        lemma_block_is_found(Seq::empty(), block);
        assert(Seq::<char>::empty() + block =~= block);
    } else {
        reveal_strlit("\n\n");
        let tail = seq!['\n'] + block;
        assert(text =~= head.push('\n') + tail);
        lemma_marker_after(head, tail, 0);
        let before = head + "\n\n"@;
        assert(text =~= before + block);
        lemma_block_is_found(before, block);
        lemma_marker_length();
        let from = head.len() + 1;
        lemma_line_end(text, from);
        assert(text[from as int] == '\n');
        assert(line_end(text, from) == from);
        assert(text.subrange(from as int, from as int) =~= Seq::<char>::empty());
    }
}

/// A block that was spliced in is read back as it is, so a config just applied is in sync.
pub proof fn law_spliced_block_is_read_back(config: Seq<char>, block: Seq<char>)
    requires
        starts(block, "# ==== GENERATED matrix block"@),
    ensures
        block_in(spliced(config, block)) == Some(block),
{
    let text = spliced(config, block);
    let head = lemma_kept_head(config);
    lemma_spliced_marker(config, block);
    reveal_strlit("\n\n");
    if head.len() == 0 {
        assert(text.skip(0) =~= block);
    } else {
        assert(text.skip((head.len() + 2) as int) =~= block);
    }
}

/// A splice keeps everything before the anchor, and ends with the block.
pub proof fn law_splice_keeps_the_rest(config: Seq<char>, block: Seq<char>)
    ensures
        starts(spliced(config, block), trim_back(config.take(anchor_of(config) as int))),
        crate::text::ends(spliced(config, block), block),
{
    let text = spliced(config, block);
    let head = trim_back(config.take(anchor_of(config) as int));
    assert(text.subrange(0, head.len() as int) =~= head);
    assert(text.subrange(text.len() - block.len(), text.len() as int) =~= block);
}

// ---- applying -------------------------------------------------------------------------------

/// Where the block was spliced, and whether the reload was seen to work.
#[derive(Debug)]
pub struct ApplyResult {
    pub backup: String,
    pub verified: bool,
    pub note: String,
}

/// What was seen of llama-swap after the write.
#[derive(Debug, Clone, Copy, PartialEq, Eq, Structural)]
pub enum Liveness {
    /// Nobody looked.
    Unchecked,
    /// It could not be reached right after the write.
    Unreachable,
    /// It was reached, and answered with this status once it had time to reload.
    Answered(u16),
    /// It was reached, and then no longer answered.
    Silent,
}

/// What to do next.
#[derive(Debug)]
pub enum Verdict {
    /// The write stands.
    Keep(ApplyResult),
    /// llama-swap stopped serving: write the backup back.
    RollBack,
}

/// Where a config is backed up before it is written.
pub fn backup_path(config_path: &str) -> (path: String)
    ensures
        path@ == config_path@ + ".pre-matrix.bak"@,
{
    config_path.to_owned().concat(".pre-matrix.bak")
}

/// Judge a write by what was seen of llama-swap after it. A rejected config leaves the old
/// one live, so an answer shows that the service survived, not that the block was parsed.
pub fn judge(backup: &str, liveness: Liveness) -> (verdict: Verdict)
    ensures
        match verdict {
            Verdict::RollBack => liveness == Liveness::Silent || (liveness is Answered
                && liveness->Answered_0 != 200),
            Verdict::Keep(result) => {
                &&& result.backup@ == backup@
                &&& match liveness {
                    Liveness::Unchecked => !result.verified && result.note@
                        == "spliced; the reload was not checked"@,
                    Liveness::Unreachable => !result.verified && result.note@
                        == "wrote config; endpoint unreachable — verify the reload manually"@,
                    Liveness::Answered(status) => status == 200 && result.verified
                        && result.note@ == "spliced; llama-swap reloaded and is serving"@,
                    Liveness::Silent => false,
                }
            },
        },
{
    match liveness {
        Liveness::Unchecked => Verdict::Keep(
            ApplyResult {
                backup: backup.to_owned(),
                verified: false,
                note: "spliced; the reload was not checked".to_owned(),
            },
        ),
        Liveness::Unreachable => Verdict::Keep(
            ApplyResult {
                backup: backup.to_owned(),
                verified: false,
                note: "wrote config; endpoint unreachable — verify the reload manually".to_owned(),
            },
        ),
        Liveness::Answered(status) => if status == 200 {
            Verdict::Keep(
                ApplyResult {
                    backup: backup.to_owned(),
                    verified: true,
                    note: "spliced; llama-swap reloaded and is serving".to_owned(),
                },
            )
        } else {
            Verdict::RollBack
        },
        Liveness::Silent => Verdict::RollBack,
    }
}

// ---- where a block goes -------------------------------------------------------------------

/// A landmark is a line of its own, of the kind that is looked for, and no such line comes
/// before it.
proof fn lemma_landmark(text: Seq<char>, landmark: Landmark, from: nat)
    requires
        from <= text.len(),
        from == 0 || text[from - 1] == '\n',
    ensures
        match landmark_from(text, landmark, from) {
            Some(at) => {
                &&& from <= at < text.len()
                &&& at == 0 || text[at - 1] == '\n'
                &&& is_landmark(
                    landmark,
                    text.subrange(at as int, line_end(text, at) as int),
                )
            },
            None => true,
        },
    decreases text.len() + 1 - from,
{
    if from < text.len() {
        lemma_line_end(text, from);
        let end = line_end(text, from);
        if !is_landmark(landmark, text.subrange(from as int, end as int)) && end < text.len() {
            lemma_landmark(text, landmark, end + 1);
        }
    }
}

/// A line that is such a landmark is not passed over.
proof fn lemma_landmark_is_found(text: Seq<char>, landmark: Landmark, from: nat, at: nat)
    requires
        from <= at < text.len(),
        from == 0 || text[from - 1] == '\n',
        at == 0 || text[at - 1] == '\n',
        is_landmark(landmark, text.subrange(at as int, line_end(text, at) as int)),
    ensures
        landmark_from(text, landmark, from) is Some,
        landmark_from(text, landmark, from)->0 <= at,
    decreases text.len() + 1 - from,
{
    lemma_line_end(text, from);
    let end = line_end(text, from);
    if !is_landmark(landmark, text.subrange(from as int, end as int)) {
        assert(from != at);
        if end >= at {
            assert(text[at - 1] != '\n');
        }
        assert(end < text.len());
        lemma_landmark_is_found(text, landmark, end + 1, at);
    }
}

/// A splice cuts a config only at a line that begins, without indentation, with `matrix:` or
/// `groups:`, or that is a generated marker; without one it cuts nothing.
pub proof fn law_a_config_is_cut_only_at_a_top_level_line(config: Seq<char>)
    ensures
        ({
            let at = anchor_of(config);
            at == config.len() || {
                let line = config.subrange(at as int, line_end(config, at) as int);
                &&& at < config.len()
                &&& at == 0 || config[at - 1] == '\n'
                &&& starts(line, "matrix:"@) || starts(line, "groups:"@) || starts(
                    trim_front(line),
                    "# ==== GENERATED matrix block"@,
                )
            }
        }),
{
    lemma_landmark(config, Landmark::Marker, 0);
    lemma_landmark(config, Landmark::Matrix, 0);
    lemma_landmark(config, Landmark::Groups, 0);
}

/// What is there is replaced: a config with a generated marker is cut at the first one or
/// before; without a marker, one with a top-level `matrix:` there or before; and one with
/// neither, at a top-level `groups:`.
pub proof fn law_what_is_there_is_replaced(config: Seq<char>, at: nat)
    requires
        at < config.len(),
        at == 0 || config[at - 1] == '\n',
    ensures
        ({
            let line = config.subrange(at as int, line_end(config, at) as int);
            &&& starts(trim_front(line), "# ==== GENERATED matrix block"@) ==> anchor_of(config)
                <= at
            &&& starts(line, "matrix:"@) && landmark_from(config, Landmark::Marker, 0) is None
                ==> anchor_of(config) <= at
            &&& starts(line, "groups:"@) && landmark_from(config, Landmark::Marker, 0) is None
                && landmark_from(config, Landmark::Matrix, 0) is None ==> anchor_of(config) <= at
        }),
{
    let line = config.subrange(at as int, line_end(config, at) as int);
    if is_landmark(Landmark::Marker, line) {
        lemma_landmark_is_found(config, Landmark::Marker, 0, at);
    }
    if is_landmark(Landmark::Matrix, line) {
        lemma_landmark_is_found(config, Landmark::Matrix, 0, at);
    }
    if is_landmark(Landmark::Groups, line) {
        lemma_landmark_is_found(config, Landmark::Groups, 0, at);
    }
}

/// A config is spliced by keeping what comes before the cut, but for the space at its end, one
/// empty line, and the block.
pub proof fn law_a_splice_is_the_kept_part_and_the_block(config: Seq<char>, block: Seq<char>)
    ensures
        ({
            let kept = trim_back(config.take(anchor_of(config) as int));
            &&& kept.len() > 0 ==> spliced(config, block) == kept + "\n\n"@ + block
            &&& kept.len() == 0 ==> spliced(config, block) == block
        }),
{
}

/// The block of a config is read from a marker on, else from a top-level `matrix:`; a config
/// with neither has none.
pub proof fn law_a_config_with_a_matrix_has_a_block(config: Seq<char>, at: nat)
    requires
        at < config.len(),
        at == 0 || config[at - 1] == '\n',
        ({
            let line = config.subrange(at as int, line_end(config, at) as int);
            starts(line, "matrix:"@) || starts(
                trim_front(line),
                "# ==== GENERATED matrix block"@,
            )
        }),
    ensures
        block_in(config) is Some,
{
    let line = config.subrange(at as int, line_end(config, at) as int);
    if is_landmark(Landmark::Marker, line) {
        lemma_landmark_is_found(config, Landmark::Marker, 0, at);
    } else {
        lemma_landmark_is_found(config, Landmark::Matrix, 0, at);
    }
}

/// Where a line of a text starts.
pub open spec fn starts_a_line(text: Seq<char>, at: nat) -> bool {
    at < text.len() && (at == 0 || text[at - 1] == '\n')
}

/// The line that starts there.
pub open spec fn line_at(text: Seq<char>, at: nat) -> Seq<char> {
    text.subrange(at as int, line_end(text, at) as int)
}

/// A text has a generated marker on a line of its own.
pub open spec fn has_marker(text: Seq<char>) -> bool {
    exists|at: nat|
        #[trigger] starts_a_line(text, at) && starts(
            trim_front(line_at(text, at)),
            "# ==== GENERATED matrix block"@,
        )
}

/// A text has a line that starts with this.
pub open spec fn has_line(text: Seq<char>, word: Seq<char>) -> bool {
    exists|at: nat| #[trigger] starts_a_line(text, at) && starts(line_at(text, at), word)
}

/// A config with a marker is cut at the marker, whatever else it holds; one without, at a
/// top-level `matrix:`; and one without that, at a top-level `groups:`. What is read back as its
/// block starts at the same line, but never at `groups:`.
pub proof fn law_a_marker_goes_before_all_else(config: Seq<char>)
    ensures
        ({
            let at = anchor_of(config);
            let line = line_at(config, at);
            let plain = !has_marker(config) && !has_line(config, "matrix:"@);
            &&& has_marker(config) ==> starts(trim_front(line), "# ==== GENERATED matrix block"@)
            &&& !has_marker(config) && has_line(config, "matrix:"@) ==> starts(line, "matrix:"@)
            &&& plain && has_line(config, "groups:"@) ==> starts(line, "groups:"@)
            &&& plain && !has_line(config, "groups:"@) ==> at == config.len()
            &&& plain ==> block_in(config) is None
            &&& !plain ==> block_in(config) == Some(config.skip(at as int))
        }),
{
    lemma_landmark(config, Landmark::Marker, 0);
    lemma_landmark(config, Landmark::Matrix, 0);
    lemma_landmark(config, Landmark::Groups, 0);
    if has_marker(config) {
        let p = choose|p: nat|
            #[trigger] starts_a_line(config, p) && starts(
                trim_front(line_at(config, p)),
                "# ==== GENERATED matrix block"@,
            );
        lemma_landmark_is_found(config, Landmark::Marker, 0, p);
    } else if landmark_from(config, Landmark::Marker, 0) is Some {
        assert(starts_a_line(config, landmark_from(config, Landmark::Marker, 0)->0));
    }
    if has_line(config, "matrix:"@) {
        let p = choose|p: nat|
            #[trigger] starts_a_line(config, p) && starts(line_at(config, p), "matrix:"@);
        lemma_landmark_is_found(config, Landmark::Matrix, 0, p);
    } else if landmark_from(config, Landmark::Matrix, 0) is Some {
        assert(starts_a_line(config, landmark_from(config, Landmark::Matrix, 0)->0));
    }
    if has_line(config, "groups:"@) {
        let p = choose|p: nat|
            #[trigger] starts_a_line(config, p) && starts(line_at(config, p), "groups:"@);
        lemma_landmark_is_found(config, Landmark::Groups, 0, p);
    } else if landmark_from(config, Landmark::Groups, 0) is Some {
        assert(starts_a_line(config, landmark_from(config, Landmark::Groups, 0)->0));
    }
}

} // verus!
