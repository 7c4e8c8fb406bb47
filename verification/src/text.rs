//! Text primitives: the string operations the rest of the library reads commands,
//! configs and reports with, each stated over sequences of characters.

use vstd::prelude::*;
use vstd::string::*;

verus! {

/// `String::push` appends exactly the one character.
pub assume_specification[ String::push ](text: &mut String, character: char)
    ensures
        final(text)@ == old(text)@.push(character),
;

// ---- characters -------------------------------------------------------------------

/// Unicode's `White_Space` property, which is what splitting and trimming go by.
pub open spec fn is_space(c: char) -> bool {
    ||| '\u{9}' <= c <= '\u{d}'
    ||| c == ' '
    ||| c == '\u{85}'
    ||| c == '\u{a0}'
    ||| c == '\u{1680}'
    ||| '\u{2000}' <= c <= '\u{200a}'
    ||| c == '\u{2028}'
    ||| c == '\u{2029}'
    ||| c == '\u{202f}'
    ||| c == '\u{205f}'
    ||| c == '\u{3000}'
}

pub fn char_is_space(c: char) -> (r: bool)
    ensures
        r == is_space(c),
{
    ('\u{9}' <= c && c <= '\u{d}') || c == ' ' || c == '\u{85}' || c == '\u{a0}' || c == '\u{1680}'
        || ('\u{2000}' <= c && c <= '\u{200a}') || c == '\u{2028}' || c == '\u{2029}' || c
        == '\u{202f}' || c == '\u{205f}' || c == '\u{3000}'
}

pub open spec fn is_digit(c: char) -> bool {
    '0' <= c <= '9'
}

pub open spec fn is_alphanumeric(c: char) -> bool {
    is_digit(c) || 'a' <= c <= 'z' || 'A' <= c <= 'Z'
}

/// The lower-case form of an ASCII letter; every other character as it is.
pub open spec fn lower_char(c: char) -> char {
    if 'A' <= c <= 'Z' {
        ((c as u32) + 32) as char
    } else {
        c
    }
}

pub open spec fn lower(s: Seq<char>) -> Seq<char> {
    s.map_values(|c: char| lower_char(c))
}

// ---- conversions ------------------------------------------------------------------

/// The characters of `text`, in order.
pub fn chars_of(text: &str) -> (chars: Vec<char>)
    ensures
        chars@ == text@,
{
    let mut chars: Vec<char> = Vec::new();
    for c in iter: text.chars()
        invariant
            iter.seq() == text@,
            chars@ == text@.take(iter.index() as int),
    {
        proof {
            assert(text@.take(iter.index() + 1) =~= text@.take(iter.index() as int).push(c));
        }
        chars.push(c);
    }
    proof {
        assert(text@.take(text@.len() as int) =~= text@);
    }
    chars
}

/// The text that consists of `chars[from..to]`.
pub fn text_between(chars: &[char], from: usize, to: usize) -> (text: String)
    requires
        from <= to <= chars@.len(),
    ensures
        text@ == chars@.subrange(from as int, to as int),
{
    let mut text = String::new();
    let mut at: usize = from;
    while at < to
        invariant
            from <= at <= to <= chars@.len(),
            text@ == chars@.subrange(from as int, at as int),
        decreases to - at,
    {
        text.push(chars[at]);
        at = at + 1;
        proof {
            assert(chars@.subrange(from as int, at as int) =~= chars@.subrange(
                from as int,
                at - 1,
            ).push(chars@[at - 1]));
        }
    }
    text
}

// ---- views of lists ---------------------------------------------------------------

/// What each element of a list stands for.
pub open spec fn views<T: View>(list: Seq<T>) -> Seq<T::V> {
    Seq::new(list.len(), |i: int| list[i]@)
}

pub proof fn lemma_views_push<T: View>(list: Seq<T>, item: T)
    ensures
        views(list.push(item)) == views(list).push(item@),
{
    assert(views(list.push(item)) =~= views(list).push(item@));
}

/// A filtered list holds exactly the elements that pass.
pub proof fn lemma_filter<A>(list: Seq<A>, pass: spec_fn(A) -> bool)
    ensures
        list.filter(pass).len() <= list.len(),
        forall|i: int|
            0 <= i < list.filter(pass).len() ==> pass(#[trigger] list.filter(pass)[i])
                && list.contains(list.filter(pass)[i]),
        forall|i: int|
            0 <= i < list.len() && pass(#[trigger] list[i]) ==> list.filter(pass).contains(list[i]),
    decreases list.len(),
{
    reveal(Seq::filter);
    if list.len() > 0 {
        let fewer = list.drop_last();
        let before = fewer.filter(pass);
        lemma_filter(fewer, pass);
        assert forall|i: int| 0 <= i < list.filter(pass).len() implies pass(
            #[trigger] list.filter(pass)[i],
        ) && list.contains(list.filter(pass)[i]) by {
            if i < before.len() {
                assert(list.filter(pass)[i] == before[i]);
                let j = choose|j: int| 0 <= j < fewer.len() && fewer[j] == before[i];
                assert(list[j] == before[i]);
            } else {
                assert(list[list.len() - 1] == list.filter(pass)[i]);
            }
        }
        assert forall|i: int|
            0 <= i < list.len() && pass(#[trigger] list[i]) implies list.filter(pass).contains(
            list[i],
        ) by {
            if i < fewer.len() {
                assert(fewer[i] == list[i]);
                let j = choose|j: int| 0 <= j < before.len() && before[j] == list[i];
                assert(list.filter(pass)[j] == list[i]);
            } else {
                assert(list.filter(pass)[before.len() as int] == list[i]);
            }
        }
    }
}

// ---- comparison -------------------------------------------------------------------

pub fn same(left: &str, right: &str) -> (r: bool)
    ensures
        r == (left@ == right@),
{
    let a = chars_of(left);
    let b = chars_of(right);
    if a.len() != b.len() {
        return false;
    }
    let mut at: usize = 0;
    while at < a.len()
        invariant
            at <= a@.len() == b@.len(),
            a@ == left@,
            b@ == right@,
            forall|i: int| 0 <= i < at ==> a@[i] == b@[i],
        decreases a@.len() - at,
    {
        if a[at] != b[at] {
            return false;
        }
        at = at + 1;
    }
    proof {
        assert(a@ =~= b@);
    }
    true
}

/// Is `name` one of `names`?
pub fn has_name(names: &Vec<String>, name: &str) -> (r: bool)
    ensures
        r == views(names@).contains(name@),
{
    let mut at: usize = 0;
    while at < names.len()
        invariant
            at <= names@.len(),
            forall|i: int| 0 <= i < at ==> views(names@)[i] != name@,
        decreases names@.len() - at,
    {
        if same(names[at].as_str(), name) {
            proof {
                assert(views(names@)[at as int] == name@);
            }
            return true;
        }
        at = at + 1;
    }
    false
}

/// `part` stands in `whole` from position `at` on.
pub open spec fn occurs_at(whole: Seq<char>, part: Seq<char>, at: int) -> bool {
    0 <= at && at + part.len() <= whole.len() && whole.subrange(at, at + part.len()) == part
}

/// `part` stands somewhere in `whole`.
pub open spec fn occurs_in(whole: Seq<char>, part: Seq<char>) -> bool {
    exists|at: int| occurs_at(whole, part, at)
}

/// Does `part` stand in `whole` from position `at` on?
pub fn matches_at(whole: &[char], part: &[char], at: usize) -> (r: bool)
    ensures
        r == occurs_at(whole@, part@, at as int),
{
    if at > whole.len() || part.len() > whole.len() - at {
        return false;
    }
    let length: usize = whole.len();
    let mut i: usize = 0;
    while i < part.len()
        invariant
            i <= part@.len(),
            at + part@.len() <= whole@.len() == length,
            forall|j: int| 0 <= j < i ==> whole@[at + j] == part@[j],
        decreases part@.len() - i,
    {
        if whole[at + i] != part[i] {
            proof {
                assert(whole@.subrange(at as int, at + part@.len())[i as int] == whole@[at + i]);
            }
            return false;
        }
        i = i + 1;
    }
    proof {
        assert(whole@.subrange(at as int, at + part@.len()) =~= part@);
    }
    true
}

pub fn contains(whole: &str, part: &str) -> (r: bool)
    ensures
        r == occurs_in(whole@, part@),
{
    let w = chars_of(whole);
    let p = chars_of(part);
    if p.len() > w.len() {
        return false;
    }
    let last: usize = w.len() - p.len();
    let mut at: usize = 0;
    loop
        invariant
            w@.len() - p@.len() == last,
            at <= last,
            w@ == whole@,
            p@ == part@,
            forall|i: int| 0 <= i < at ==> !occurs_at(whole@, part@, i),
        decreases last - at,
    {
        if matches_at(w.as_slice(), p.as_slice(), at) {
            return true;
        }
        if at == last {
            return false;
        }
        at = at + 1;
    }
}

pub open spec fn starts(whole: Seq<char>, part: Seq<char>) -> bool {
    occurs_at(whole, part, 0)
}

pub open spec fn ends(whole: Seq<char>, part: Seq<char>) -> bool {
    occurs_at(whole, part, whole.len() - part.len())
}

pub fn starts_with(whole: &str, part: &str) -> (r: bool)
    ensures
        r == starts(whole@, part@),
{
    matches_at(chars_of(whole).as_slice(), chars_of(part).as_slice(), 0)
}

pub fn ends_with(whole: &str, part: &str) -> (r: bool)
    ensures
        r == ends(whole@, part@),
{
    let w = chars_of(whole);
    let p = chars_of(part);
    if p.len() > w.len() {
        return false;
    }
    matches_at(w.as_slice(), p.as_slice(), w.len() - p.len())
}

/// `text` without `prefix`, where it starts with it.
pub fn strip_prefix(text: &str, prefix: &str) -> (r: Option<String>)
    ensures
        r is Some <==> starts(text@, prefix@),
        r is Some ==> r->0@ == text@.skip(prefix@.len() as int),
{
    let t = chars_of(text);
    let p = chars_of(prefix);
    if matches_at(t.as_slice(), p.as_slice(), 0) {
        Some(text_between(t.as_slice(), p.len(), t.len()))
    } else {
        None
    }
}

/// `text` with its ASCII letters in lower case.
pub fn to_lower(text: &str) -> (r: String)
    ensures
        r@ == lower(text@),
{
    let chars = chars_of(text);
    let mut r = String::new();
    let mut at: usize = 0;
    while at < chars.len()
        invariant
            at <= chars@.len(),
            chars@ == text@,
            r@ == lower(text@.take(at as int)),
        decreases chars@.len() - at,
    {
        let c = chars[at];
        let l: char = if 'A' <= c && c <= 'Z' {
            ((c as u8) + 32) as char
        } else {
            c
        };
        r.push(l);
        at = at + 1;
        proof {
            assert(lower(text@.take(at as int)) =~= lower(text@.take(at - 1)).push(l));
        }
    }
    proof {
        assert(text@.take(at as int) =~= text@);
    }
    r
}

// ---- splitting and joining ----------------------------------------------------------

/// The maximal runs of characters that are no separators: those that a separator
/// closed, and the one still open at the end of `s` (empty after a separator).
pub open spec fn runs(s: Seq<char>, separator: spec_fn(char) -> bool) -> (Seq<Seq<char>>, Seq<char>)
    decreases s.len(),
{
    if s.len() == 0 {
        (Seq::empty(), Seq::empty())
    } else {
        let (closed, open) = runs(s.drop_last(), separator);
        if !separator(s.last()) {
            (closed, open.push(s.last()))
        } else if open.len() == 0 {
            (closed, open)
        } else {
            (closed.push(open), Seq::empty())
        }
    }
}

/// The pieces of `s` between separators, empty ones left out.
pub open spec fn fields(s: Seq<char>, separator: spec_fn(char) -> bool) -> Seq<Seq<char>> {
    let (closed, open) = runs(s, separator);
    if open.len() == 0 {
        closed
    } else {
        closed.push(open)
    }
}

/// The words of `s`: its pieces between white space.
pub open spec fn words(s: Seq<char>) -> Seq<Seq<char>> {
    fields(s, |c: char| is_space(c))
}

/// The pieces of `s` between single occurrences of `separator`, empty ones kept:
/// always at least one.
pub open spec fn pieces(s: Seq<char>, separator: char) -> Seq<Seq<char>>
    decreases s.len(),
{
    if s.len() == 0 {
        seq![Seq::empty()]
    } else {
        let before = pieces(s.drop_last(), separator);
        if s.last() == separator {
            before.push(Seq::empty())
        } else {
            before.drop_last().push(before.last().push(s.last()))
        }
    }
}

/// `parts` with `separator` between each two.
pub open spec fn joined(parts: Seq<Seq<char>>, separator: Seq<char>) -> Seq<char>
    decreases parts.len(),
{
    if parts.len() == 0 {
        Seq::empty()
    } else if parts.len() == 1 {
        parts[0]
    } else {
        joined(parts.drop_last(), separator) + separator + parts.last()
    }
}

/// None of the characters of `s` is a separator.
pub open spec fn unbroken(s: Seq<char>, separator: spec_fn(char) -> bool) -> bool {
    forall|i: int| 0 <= i < s.len() ==> !separator(#[trigger] s[i])
}

/// Every piece is a non-empty run that holds no separator.
pub proof fn lemma_fields_are_runs(s: Seq<char>, separator: spec_fn(char) -> bool)
    ensures
        forall|i: int|
            0 <= i < fields(s, separator).len() ==> {
                &&& (#[trigger] fields(s, separator)[i]).len() > 0
                &&& unbroken(fields(s, separator)[i], separator)
            },
{
    lemma_runs_hold_no_separator(s, separator);
}

proof fn lemma_runs_hold_no_separator(s: Seq<char>, separator: spec_fn(char) -> bool)
    ensures
        unbroken(runs(s, separator).1, separator),
        forall|i: int|
            0 <= i < runs(s, separator).0.len() ==> {
                &&& (#[trigger] runs(s, separator).0[i]).len() > 0
                &&& unbroken(runs(s, separator).0[i], separator)
            },
    decreases s.len(),
{
    if s.len() > 0 {
        lemma_runs_hold_no_separator(s.drop_last(), separator);
        let (closed, open) = runs(s.drop_last(), separator);
        if !separator(s.last()) {
            assert(runs(s, separator) == (closed, open.push(s.last())));
        } else if open.len() > 0 {
            assert(runs(s, separator) == (closed.push(open), Seq::<char>::empty()));
        }
    }
}

/// The words of `text`, in order.
pub fn split_whitespace(text: &str) -> (parts: Vec<String>)
    ensures
        views(parts@) == words(text@),
{
    let chars = chars_of(text);
    let mut parts: Vec<String> = Vec::new();
    let mut open = String::new();
    let mut length: usize = 0;
    let mut at: usize = 0;
    let ghost separator = |c: char| is_space(c);
    while at < chars.len()
        invariant
            at <= chars@.len(),
            chars@ == text@,
            separator == (|c: char| is_space(c)),
            (views(parts@), open@) == runs(text@.take(at as int), separator),
            length == open@.len(),
            length <= at,
        decreases chars@.len() - at,
    {
        let c = chars[at];
        at = at + 1;
        proof {
            assert(text@.take(at as int).drop_last() =~= text@.take(at - 1));
        }
        if !char_is_space(c) {
            open.push(c);
            length = length + 1;
        } else if length > 0 {
            proof {
                lemma_views_push(parts@, open);
            }
            parts.push(open);
            open = String::new();
            length = 0;
        }
    }
    proof {
        assert(text@.take(at as int) =~= text@);
        lemma_views_push(parts@, open);
    }
    if length > 0 {
        parts.push(open);
    }
    parts
}

/// The pieces of `text` between single occurrences of `separator`.
pub fn split_on(text: &str, separator: char) -> (parts: Vec<String>)
    ensures
        views(parts@) == pieces(text@, separator),
        parts@.len() >= 1,
{
    let chars = chars_of(text);
    let mut parts: Vec<String> = Vec::new();
    let mut open = String::new();
    let mut at: usize = 0;
    while at < chars.len()
        invariant
            at <= chars@.len(),
            chars@ == text@,
            views(parts@).push(open@) == pieces(text@.take(at as int), separator),
        decreases chars@.len() - at,
    {
        let c = chars[at];
        at = at + 1;
        let ghost before = views(parts@).push(open@);
        proof {
            assert(text@.take(at as int).drop_last() =~= text@.take(at - 1));
            assert(before.drop_last() =~= views(parts@));
            assert(before.last() == open@);
        }
        if c == separator {
            proof {
                lemma_views_push(parts@, open);
            }
            parts.push(open);
            open = String::new();
        } else {
            open.push(c);
        }
        proof {
            assert(views(parts@).push(open@) =~= pieces(text@.take(at as int), separator));
        }
    }
    proof {
        assert(text@.take(at as int) =~= text@);
        lemma_views_push(parts@, open);
    }
    parts.push(open);
    parts
}

/// `parts` with `separator` between each two.
pub fn join(parts: &Vec<String>, separator: &str) -> (text: String)
    ensures
        text@ == joined(views(parts@), separator@),
{
    let mut text = String::new();
    let mut at: usize = 0;
    while at < parts.len()
        invariant
            at <= parts@.len(),
            text@ == joined(views(parts@).take(at as int), separator@),
        decreases parts@.len() - at,
    {
        proof {
            assert(views(parts@).take(at + 1).drop_last() =~= views(parts@).take(at as int));
        }
        if at > 0 {
            text.append(separator);
        }
        text.append(parts[at].as_str());
        at = at + 1;
        proof {
            assert(text@ =~= joined(views(parts@).take(at as int), separator@));
        }
    }
    proof {
        assert(views(parts@).take(at as int) =~= views(parts@));
    }
    text
}

// ---- trimming -----------------------------------------------------------------------------

/// `s` without the white space at its start.
pub open spec fn trim_front(s: Seq<char>) -> Seq<char>
    decreases s.len(),
{
    if s.len() > 0 && is_space(s[0]) {
        trim_front(s.skip(1))
    } else {
        s
    }
}

/// `s` without the white space at its end.
pub open spec fn trim_back(s: Seq<char>) -> Seq<char>
    decreases s.len(),
{
    if s.len() > 0 && is_space(s.last()) {
        trim_back(s.drop_last())
    } else {
        s
    }
}

/// `s` without the white space at either end.
pub open spec fn trim_both(s: Seq<char>) -> Seq<char> {
    trim_back(trim_front(s))
}

/// Where the text of `chars[from..to]` starts once the white space there is dropped.
pub fn front_of(chars: &[char], from: usize, to: usize) -> (start: usize)
    requires
        from <= to <= chars@.len(),
    ensures
        from <= start <= to,
        chars@.subrange(start as int, to as int) == trim_front(
            chars@.subrange(from as int, to as int),
        ),
{
    let mut start: usize = from;
    while start < to && char_is_space(chars[start])
        invariant
            from <= start <= to <= chars@.len(),
            trim_front(chars@.subrange(start as int, to as int)) == trim_front(
                chars@.subrange(from as int, to as int),
            ),
        decreases to - start,
    {
        proof {
            let rest = chars@.subrange(start as int, to as int);
            assert(rest[0] == chars@[start as int]);
            assert(rest.skip(1) =~= chars@.subrange(start + 1, to as int));
        }
        start = start + 1;
    }
    proof {
        let rest = chars@.subrange(start as int, to as int);
        if start < to {
            assert(rest[0] == chars@[start as int]);
        }
    }
    start
}

/// Where the text of `chars[from..to]` ends once the white space there is dropped.
pub fn back_of(chars: &[char], from: usize, to: usize) -> (end: usize)
    requires
        from <= to <= chars@.len(),
    ensures
        from <= end <= to,
        chars@.subrange(from as int, end as int) == trim_back(
            chars@.subrange(from as int, to as int),
        ),
{
    let mut end: usize = to;
    while end > from && char_is_space(chars[end - 1])
        invariant
            from <= end <= to <= chars@.len(),
            trim_back(chars@.subrange(from as int, end as int)) == trim_back(
                chars@.subrange(from as int, to as int),
            ),
        decreases end,
    {
        proof {
            let rest = chars@.subrange(from as int, end as int);
            assert(rest.last() == chars@[end - 1]);
            assert(rest.drop_last() =~= chars@.subrange(from as int, end - 1));
        }
        end = end - 1;
    }
    proof {
        let rest = chars@.subrange(from as int, end as int);
        if end > from {
            assert(rest.last() == chars@[end - 1]);
        }
    }
    end
}

/// `text` without the white space at either end.
pub fn trim(text: &str) -> (r: String)
    ensures
        r@ == trim_both(text@),
{
    let chars = chars_of(text);
    let length: usize = chars.len();
    proof {
        assert(chars@.subrange(0, length as int) =~= chars@);
    }
    let start: usize = front_of(chars.as_slice(), 0, length);
    let end: usize = back_of(chars.as_slice(), start, length);
    text_between(chars.as_slice(), start, end)
}

// ---- finding ------------------------------------------------------------------------------

/// Where `part` first stands in `whole`, at or after `from`.
pub open spec fn first_from(whole: Seq<char>, part: Seq<char>, from: int) -> Option<int>
    decreases whole.len() + 1 - from,
{
    if from > whole.len() {
        None
    } else if occurs_at(whole, part, from) {
        Some(from)
    } else {
        first_from(whole, part, from + 1)
    }
}

/// Where `part` first stands in `whole`.
pub fn find(whole: &[char], part: &[char]) -> (r: Option<usize>)
    ensures
        match r {
            Some(at) => first_from(whole@, part@, 0) == Some(at as int) && at + part@.len()
                <= whole@.len(),
            None => first_from(whole@, part@, 0) is None,
        },
{
    let length: usize = whole.len();
    let mut at: usize = 0;
    while at < length
        invariant
            length == whole@.len(),
            at <= length,
            first_from(whole@, part@, at as int) == first_from(whole@, part@, 0),
        decreases length - at,
    {
        if matches_at(whole, part, at) {
            return Some(at);
        }
        at = at + 1;
    }
    if matches_at(whole, part, at) {
        Some(at)
    } else {
        proof {
            assert(first_from(whole@, part@, at + 1) is None);
        }
        None
    }
}

/// The first line of `text` that starts with `prefix`.
pub open spec fn line_starting(lines: Seq<Seq<char>>, prefix: Seq<char>) -> Option<Seq<char>>
    decreases lines.len(),
{
    if lines.len() == 0 {
        None
    } else if starts(lines[0], prefix) {
        Some(lines[0])
    } else {
        line_starting(lines.skip(1), prefix)
    }
}

/// The first of `lines` that starts with `prefix`.
pub fn find_line<'a>(lines: &'a Vec<String>, prefix: &str) -> (r: Option<&'a String>)
    ensures
        match r {
            Some(line) => line_starting(views(lines@), prefix@) == Some(line@),
            None => line_starting(views(lines@), prefix@) is None,
        },
{
    let ghost all = views(lines@);
    let mut at: usize = 0;
    proof {
        assert(all.skip(0) =~= all);
    }
    while at < lines.len()
        invariant
            at <= lines@.len(),
            all == views(lines@),
            line_starting(all.skip(at as int), prefix@) == line_starting(all, prefix@),
        decreases lines@.len() - at,
    {
        proof {
            assert(all.skip(at as int)[0] == lines@[at as int]@);
            assert(all.skip(at as int).skip(1) =~= all.skip(at + 1));
        }
        if starts_with(lines[at].as_str(), prefix) {
            return Some(&lines[at]);
        }
        at = at + 1;
    }
    None
}

// ---- what a search finds ------------------------------------------------------------------

/// The first line that starts so is found, and none is found only where no line does.
pub proof fn law_the_first_such_line_is_found(lines: Seq<Seq<char>>, prefix: Seq<char>)
    ensures
        match line_starting(lines, prefix) {
            Some(line) => exists|i: int|
                0 <= i < lines.len() && #[trigger] lines[i] == line && starts(line, prefix) && (
                forall|j: int| 0 <= j < i ==> !starts(#[trigger] lines[j], prefix)),
            None => forall|i: int| 0 <= i < lines.len() ==> !starts(#[trigger] lines[i], prefix),
        },
    decreases lines.len(),
{
    if lines.len() > 0 {
        if starts(lines[0], prefix) {
            assert(lines[0] == lines[0]);
        } else {
            let rest = lines.skip(1);
            law_the_first_such_line_is_found(rest, prefix);
            match line_starting(rest, prefix) {
                Some(line) => {
                    let i = choose|i: int|
                        0 <= i < rest.len() && #[trigger] rest[i] == line && starts(line, prefix)
                            && (forall|j: int|
                            0 <= j < i ==> !starts(#[trigger] rest[j], prefix));
                    assert(lines[i + 1] == line);
                    assert forall|j: int| 0 <= j < i + 1 implies !starts(
                        #[trigger] lines[j],
                        prefix,
                    ) by {
                        if j > 0 {
                            assert(!starts(rest[j - 1], prefix));
                        }
                    }
                },
                None => {
                    assert forall|j: int| 0 <= j < lines.len() implies !starts(
                        #[trigger] lines[j],
                        prefix,
                    ) by {
                        if j > 0 {
                            assert(!starts(rest[j - 1], prefix));
                        }
                    }
                },
            }
        }
    }
}

/// The first place where a text holds a part is found, and none is found only where there is
/// none.
pub proof fn law_the_first_place_is_found(whole: Seq<char>, part: Seq<char>, from: int)
    requires
        0 <= from,
    ensures
        match first_from(whole, part, from) {
            Some(at) => {
                &&& from <= at
                &&& at + part.len() <= whole.len()
                &&& whole.subrange(at, at + part.len()) == part
                &&& forall|j: int| from <= j < at ==> !#[trigger] occurs_at(whole, part, j)
            },
            None => forall|j: int| from <= j ==> !#[trigger] occurs_at(whole, part, j),
        },
    decreases whole.len() + 1 - from,
{
    if from <= whole.len() && !occurs_at(whole, part, from) {
        law_the_first_place_is_found(whole, part, from + 1);
    }
}

// ---- what texts are made of ---------------------------------------------------------------

/// Blanks, tabs and line ends are space, and so are the other blanks of Unicode; what is printed of
/// ASCII is not.
pub proof fn law_what_space_is(c: char)
    ensures
        c == ' ' || c == '\t' || c == '\n' || c == '\r' ==> is_space(c),
        '!' <= c <= '~' ==> !is_space(c),
        is_space(c) <==> {
            let code = c as int;
            ||| 9 <= code <= 13
            ||| code == 32
            ||| code == 133
            ||| code == 160
            ||| code == 5_760
            ||| 8_192 <= code <= 8_202
            ||| code == 8_232
            ||| code == 8_233
            ||| code == 8_239
            ||| code == 8_287
            ||| code == 12_288
        },
{
}

/// A run without separators between two separators, or an end, is a field, between the fields
/// before it and those after it.
pub proof fn law_a_run_is_a_field(
    before: Seq<char>,
    run: Seq<char>,
    after: Seq<char>,
    separator: spec_fn(char) -> bool,
)
    requires
        run.len() > 0,
        forall|i: int| 0 <= i < run.len() ==> !separator(#[trigger] run[i]),
        before.len() > 0 ==> separator(before.last()),
        after.len() > 0 ==> separator(after[0]),
    ensures
        fields(before + run + after, separator) == fields(before, separator).push(run) + fields(
            after,
            separator,
        ),
        fields(Seq::empty(), separator) == Seq::<Seq<char>>::empty(),
{
    lemma_closed(before, separator);
    lemma_open_run(before, run, separator);
    if after.len() == 0 {
        assert(before + run + after =~= before + run);
        assert(fields(before, separator).push(run) + fields(after, separator) =~= fields(
            before,
            separator,
        ).push(run));
    } else {
        lemma_after_run(before + run, after, separator);
        let all = runs(before + run + after, separator);
        let tail = runs(after, separator);
        assert(fields(before + run + after, separator) =~= fields(before, separator).push(run)
            + fields(after, separator));
    }
}

/// Separators alone are no field.
pub proof fn law_separators_are_no_field(blank: Seq<char>, separator: spec_fn(char) -> bool)
    requires
        forall|i: int| 0 <= i < blank.len() ==> separator(#[trigger] blank[i]),
    ensures
        fields(blank, separator) == Seq::<Seq<char>>::empty(),
    decreases blank.len(),
{
    if blank.len() > 0 {
        law_separators_are_no_field(blank.drop_last(), separator);
        assert(separator(blank[blank.len() - 1]));
    }
}

proof fn lemma_closed(before: Seq<char>, separator: spec_fn(char) -> bool)
    requires
        before.len() > 0 ==> separator(before.last()),
    ensures
        runs(before, separator) == (fields(before, separator), Seq::<char>::empty()),
{
    if before.len() > 0 {
        let (closed, open) = runs(before.drop_last(), separator);
        if open.len() == 0 {
            assert(open =~= Seq::empty());
        }
    }
}

proof fn lemma_open_run(before: Seq<char>, run: Seq<char>, separator: spec_fn(char) -> bool)
    requires
        before.len() > 0 ==> separator(before.last()),
        forall|i: int| 0 <= i < run.len() ==> !separator(#[trigger] run[i]),
    ensures
        runs(before + run, separator) == (fields(before, separator), run),
    decreases run.len(),
{
    if run.len() == 0 {
        lemma_closed(before, separator);
        assert(before + run =~= before);
        assert(run =~= Seq::empty());
    } else {
        lemma_open_run(before, run.drop_last(), separator);
        assert((before + run).drop_last() =~= before + run.drop_last());
        assert(run.drop_last().push(run.last()) =~= run);
        assert(!separator(run[run.len() - 1]));
    }
}

proof fn lemma_after_run(before: Seq<char>, after: Seq<char>, separator: spec_fn(char) -> bool)
    requires
        after.len() > 0,
        separator(after[0]),
        runs(before, separator).1.len() > 0,
    ensures
        runs(before + after, separator).0 == runs(before, separator).0.push(
            runs(before, separator).1,
        ) + runs(after, separator).0,
        runs(before + after, separator).1 == runs(after, separator).1,
    decreases after.len(),
{
    let shorter = after.drop_last();
    assert((before + after).drop_last() =~= before + shorter);
    let (closed, open) = runs(before, separator);
    if shorter.len() == 0 {
        assert(before + shorter =~= before);
        assert(after.last() == after[0]);
        assert(runs(shorter, separator).1.len() == 0);
        assert(runs(after, separator).0 =~= Seq::<Seq<char>>::empty());
        assert(closed.push(open) + Seq::<Seq<char>>::empty() =~= closed.push(open));
    } else {
        lemma_after_run(before, shorter, separator);
        let (inner, rest) = runs(shorter, separator);
        assert(closed.push(open) + inner.push(rest) =~= (closed.push(open) + inner).push(rest));
    }
}

/// A text is cut at every separator: what is before it and what is after it are cut apart.
pub proof fn law_a_text_is_cut_at_every_separator(a: Seq<char>, b: Seq<char>, separator: char)
    ensures
        pieces(a.push(separator) + b, separator) == pieces(a, separator) + pieces(b, separator),
    decreases b.len(),
{
    let whole = a.push(separator) + b;
    if b.len() == 0 {
        assert(whole =~= a.push(separator));
        assert(whole.drop_last() =~= a);
        assert(pieces(a, separator) + pieces(b, separator) =~= pieces(a, separator).push(
            Seq::empty(),
        ));
    } else {
        law_a_text_is_cut_at_every_separator(a, b.drop_last(), separator);
        lemma_pieces_are_some(b.drop_last(), separator);
        assert(whole.drop_last() =~= a.push(separator) + b.drop_last());
        let first = pieces(a, separator);
        let rest = pieces(b.drop_last(), separator);
        if b.last() == separator {
            assert((first + rest).push(Seq::empty()) =~= first + rest.push(Seq::empty()));
        } else {
            assert((first + rest).last() == rest.last());
            assert((first + rest).drop_last().push(rest.last().push(b.last())) =~= first
                + rest.drop_last().push(rest.last().push(b.last())));
        }
    }
}

proof fn lemma_pieces_are_some(s: Seq<char>, separator: char)
    ensures
        pieces(s, separator).len() > 0,
    decreases s.len(),
{
    if s.len() > 0 {
        lemma_pieces_are_some(s.drop_last(), separator);
    }
}

/// A text without the separator is one piece.
pub proof fn law_a_text_without_separators_is_one_piece(s: Seq<char>, separator: char)
    requires
        forall|i: int| 0 <= i < s.len() ==> #[trigger] s[i] != separator,
    ensures
        pieces(s, separator) == seq![s],
    decreases s.len(),
{
    if s.len() == 0 {
        assert(s =~= Seq::empty());
    } else {
        law_a_text_without_separators_is_one_piece(s.drop_last(), separator);
        assert(s[s.len() - 1] != separator);
        assert(s.drop_last().push(s.last()) =~= s);
        assert(pieces(s, separator) =~= seq![s]);
    }
}

/// Parts are joined with one separator between two of them, and none around them.
pub proof fn law_separators_stand_between_parts(
    parts: Seq<Seq<char>>,
    last: Seq<char>,
    separator: Seq<char>,
)
    ensures
        joined(Seq::empty(), separator) == Seq::<char>::empty(),
        joined(seq![last], separator) == last,
        parts.len() > 0 ==> joined(parts.push(last), separator) == joined(parts, separator)
            + separator + last,
{
    if parts.len() > 0 {
        assert(parts.push(last).drop_last() =~= parts);
    }
}

/// Trimming takes the space around a text, and no more.
pub proof fn law_trimming_takes_the_space_around(
    before: Seq<char>,
    s: Seq<char>,
    after: Seq<char>,
)
    requires
        forall|i: int| 0 <= i < before.len() ==> is_space(#[trigger] before[i]),
        forall|i: int| 0 <= i < after.len() ==> is_space(#[trigger] after[i]),
        s.len() > 0 ==> !is_space(s[0]) && !is_space(s.last()),
    ensures
        trim_both(before + s + after) == s,
{
    let rest = s + after;
    assert(before + s + after =~= before + rest);
    lemma_front(before, rest);
    if s.len() == 0 {
        assert(rest =~= after);
        assert(after + Seq::<char>::empty() =~= after);
        lemma_front(after, Seq::empty());
        assert(trim_front(rest) =~= Seq::empty());
        assert(s =~= Seq::empty());
    } else {
        assert(rest[0] == s[0]);
        lemma_back(s, after);
    }
}

proof fn lemma_front(before: Seq<char>, rest: Seq<char>)
    requires
        forall|i: int| 0 <= i < before.len() ==> is_space(#[trigger] before[i]),
    ensures
        trim_front(before + rest) == trim_front(rest),
    decreases before.len(),
{
    if before.len() == 0 {
        assert(before + rest =~= rest);
    } else {
        assert(is_space(before[0]));
        lemma_front(before.skip(1), rest);
        assert((before + rest).skip(1) =~= before.skip(1) + rest);
    }
}

proof fn lemma_back(s: Seq<char>, after: Seq<char>)
    requires
        s.len() > 0,
        !is_space(s.last()),
        forall|i: int| 0 <= i < after.len() ==> is_space(#[trigger] after[i]),
    ensures
        trim_back(s + after) == s,
    decreases after.len(),
{
    if after.len() == 0 {
        assert(s + after =~= s);
    } else {
        assert(is_space(after[after.len() - 1]));
        lemma_back(s, after.drop_last());
        assert((s + after).drop_last() =~= s + after.drop_last());
    }
}

/// Lower case changes `A` to `Z` and nothing else, place by place.
pub proof fn law_lower_case_changes_capitals_only(s: Seq<char>, i: int)
    requires
        0 <= i < s.len(),
    ensures
        lower(s).len() == s.len(),
        s[i] < 'A' || s[i] > 'Z' ==> lower(s)[i] == s[i],
        'A' <= s[i] <= 'Z' ==> lower(s)[i] as int == s[i] as int + 32,
{
}

/// A text starts and ends with a part exactly if it is the part with something behind or before
/// it.
pub proof fn law_starts_and_ends(part: Seq<char>, rest: Seq<char>)
    ensures
        starts(part + rest, part),
        ends(rest + part, part),
        occurs_in(rest + part, part),
        occurs_in(part + rest, part),
        starts(rest, part) ==> rest == part + rest.skip(part.len() as int),
        ends(rest, part) ==> rest == rest.take(rest.len() - part.len()) + part,
{
    assert((part + rest).subrange(0, part.len() as int) =~= part);
    let whole = rest + part;
    assert(whole.subrange(whole.len() - part.len(), whole.len() as int) =~= part);
    assert(occurs_at(rest + part, part, rest.len() as int));
    assert(occurs_at(part + rest, part, 0));
    if starts(rest, part) {
        assert(rest =~= part + rest.skip(part.len() as int));
    }
    if ends(rest, part) {
        assert(rest =~= rest.take(rest.len() - part.len()) + part);
    }
}

/// A text holds each of its parts.
pub proof fn law_a_text_holds_its_parts(before: Seq<char>, part: Seq<char>, after: Seq<char>)
    ensures
        occurs_in(before + part + after, part),
{
    let whole = before + part + after;
    let at = before.len() as int;
    assert(whole.subrange(at, at + part.len()) =~= part);
    assert(occurs_at(whole, part, at));
}

} // verus!
