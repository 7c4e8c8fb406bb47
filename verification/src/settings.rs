//! The `configure` surface: the scalar settings of `llama-matrix.toml`, validated, and read
//! and written as text so that hand-written comments and tables survive.

use vstd::prelude::*;
use vstd::string::*;

use crate::model::text_view;
use crate::number::{digit_char, digits, law_digits_are_read_back};
use crate::text::{
    chars_of, contains, ends, has_name, is_digit, is_space, join, joined, lemma_views_push, lower,
    occurs_at, occurs_in, pieces, same, to_lower, trim, trim_back, trim_both, trim_front, views,
};

verus! {

// ---- the settings -------------------------------------------------------------------------

/// The value domain of a setting.
#[derive(Debug)]
pub enum Kind {
    /// A free string (a URL, a path).
    Str,
    /// A number of GB.
    Float,
    /// One of a few words.
    Enum(Vec<String>),
}

/// One settable scalar: its key, value domain, description, and what is shown when it is
/// not set.
#[derive(Debug)]
pub struct Setting {
    pub key: &'static str,
    pub kind: Kind,
    pub desc: &'static str,
    pub default: &'static str,
}

/// What a value domain says.
#[verifier::ext_equal]
pub enum KindView {
    Str,
    Float,
    Enum(Seq<Seq<char>>),
}

/// What a setting says.
#[verifier::ext_equal]
pub struct SettingView {
    pub key: Seq<char>,
    pub kind: KindView,
    pub desc: Seq<char>,
    pub default: Seq<char>,
}

impl View for Kind {
    type V = KindView;

    open spec fn view(&self) -> KindView {
        match *self {
            Kind::Str => KindView::Str,
            Kind::Float => KindView::Float,
            Kind::Enum(allowed) => KindView::Enum(views(allowed@)),
        }
    }
}

impl View for Setting {
    type V = SettingView;

    open spec fn view(&self) -> SettingView {
        SettingView {
            key: self.key@,
            kind: self.kind@,
            desc: self.desc@,
            default: self.default@,
        }
    }
}

/// Every setting that `configure` knows.
pub open spec fn known_settings() -> Seq<SettingView> {
    seq![
        SettingView {
            key: "config"@,
            kind: KindView::Str,
            desc: "path to the llama-swap config.yaml (also written by `setup`)"@,
            default: "(./config.yaml)"@,
        },
        SettingView {
            key: "endpoint"@,
            kind: KindView::Str,
            desc: "llama-swap base URL"@,
            default: "http://localhost:8080"@,
        },
        SettingView {
            key: "budget"@,
            kind: KindView::Float,
            desc: "GB to plan against (unset = auto-detect the pool)"@,
            default: "(auto-detect)"@,
        },
        SettingView {
            key: "margin"@,
            kind: KindView::Float,
            desc: "GB safety slack inside the budget"@,
            default: "4.0"@,
        },
        SettingView {
            key: "host_budget"@,
            kind: KindView::Float,
            desc: "GB of host RAM to plan against (unset = the total `measure` detected)"@,
            default: "(auto-detect)"@,
        },
        SettingView {
            key: "host_margin"@,
            kind: KindView::Float,
            desc: "GB safety slack inside the host budget"@,
            default: "4.0"@,
        },
        SettingView {
            key: "host_cache_gb"@,
            kind: KindView::Float,
            desc: "GB of host prompt cache to assume when `-cram` is unstated"@,
            default: "8.0"@,
        },
        SettingView {
            key: "on_host_overflow"@,
            kind: KindView::Enum(seq!["warn"@, "exclude"@, "error"@]),
            desc: "host-RAM overflow handling"@,
            default: "warn"@,
        },
        SettingView {
            key: "strategy"@,
            kind: KindView::Enum(seq!["flat"@, "family"@]),
            desc: "packing strategy"@,
            default: "flat"@,
        },
        SettingView {
            key: "on_overflow"@,
            kind: KindView::Enum(seq!["group"@, "error"@]),
            desc: "1000-combination cap handling"@,
            default: "group"@,
        },
        SettingView {
            key: "on_unconfirmed"@,
            kind: KindView::Enum(seq!["warn"@, "exclude"@, "error"@]),
            desc: "unconfirmed footprint handling"@,
            default: "warn"@,
        },
        SettingView {
            key: "probe_image_size"@,
            kind: KindView::Str,
            desc: "WxH the image load-trigger generates at"@,
            default: "1024x1024"@,
        },
    ]
}

fn two_words(a: &str, b: &str) -> (r: Vec<String>)
    ensures
        views(r@) == seq![a@, b@],
{
    let mut r: Vec<String> = Vec::new();
    r.push(a.to_owned());
    r.push(b.to_owned());
    proof {
        assert(views(r@) =~= seq![a@, b@]);
    }
    r
}

fn three_words(a: &str, b: &str, c: &str) -> (r: Vec<String>)
    ensures
        views(r@) == seq![a@, b@, c@],
{
    let mut r = two_words(a, b);
    let last = c.to_owned();
    proof {
        lemma_views_push(r@, last);
        assert(seq![a@, b@].push(c@) =~= seq![a@, b@, c@]);
    }
    r.push(last);
    r
}

fn setting(
    key: &'static str,
    kind: Kind,
    desc: &'static str,
    default: &'static str,
) -> (r: Setting)
    ensures
        r@ == (SettingView { key: key@, kind: kind@, desc: desc@, default: default@ }),
{
    Setting { key, kind, desc, default }
}

/// Every setting that `configure` knows.
pub fn settings() -> (list: Vec<Setting>)
    ensures
        views(list@) == known_settings(),
{
    let mut list: Vec<Setting> = Vec::new();
    list.push(
        setting(
            "config",
            Kind::Str,
            "path to the llama-swap config.yaml (also written by `setup`)",
            "(./config.yaml)",
        ),
    );
    list.push(setting("endpoint", Kind::Str, "llama-swap base URL", "http://localhost:8080"));
    list.push(
        setting(
            "budget",
            Kind::Float,
            "GB to plan against (unset = auto-detect the pool)",
            "(auto-detect)",
        ),
    );
    list.push(setting("margin", Kind::Float, "GB safety slack inside the budget", "4.0"));
    list.push(
        setting(
            "host_budget",
            Kind::Float,
            "GB of host RAM to plan against (unset = the total `measure` detected)",
            "(auto-detect)",
        ),
    );
    list.push(
        setting("host_margin", Kind::Float, "GB safety slack inside the host budget", "4.0"),
    );
    list.push(
        setting(
            "host_cache_gb",
            Kind::Float,
            "GB of host prompt cache to assume when `-cram` is unstated",
            "8.0",
        ),
    );
    list.push(
        setting(
            "on_host_overflow",
            Kind::Enum(three_words("warn", "exclude", "error")),
            "host-RAM overflow handling",
            "warn",
        ),
    );
    list.push(
        setting("strategy", Kind::Enum(two_words("flat", "family")), "packing strategy", "flat"),
    );
    list.push(
        setting(
            "on_overflow",
            Kind::Enum(two_words("group", "error")),
            "1000-combination cap handling",
            "group",
        ),
    );
    list.push(
        setting(
            "on_unconfirmed",
            Kind::Enum(three_words("warn", "exclude", "error")),
            "unconfirmed footprint handling",
            "warn",
        ),
    );
    list.push(
        setting(
            "probe_image_size",
            Kind::Str,
            "WxH the image load-trigger generates at",
            "1024x1024",
        ),
    );
    proof {
        assert(views(list@) =~= known_settings());
    }
    list
}

/// The settable keys (also the source for shell completion).
pub fn keys() -> (r: Vec<&'static str>)
    ensures
        r@.len() == known_settings().len(),
        forall|i: int| 0 <= i < r@.len() ==> (#[trigger] r@[i])@ == known_settings()[i].key,
{
    let list = settings();
    let mut r: Vec<&'static str> = Vec::new();
    let mut at: usize = 0;
    while at < list.len()
        invariant
            at <= list@.len(),
            views(list@) == known_settings(),
            r@.len() == at,
            forall|i: int| 0 <= i < at ==> (#[trigger] r@[i])@ == known_settings()[i].key,
        decreases list@.len() - at,
    {
        proof {
            assert(views(list@)[at as int] == list@[at as int]@);
        }
        r.push(list[at].key);
        at = at + 1;
    }
    proof {
        assert(views(list@).len() == list@.len());
    }
    r
}

// ---- errors -------------------------------------------------------------------------------

/// Why a setting cannot be read or written.
#[derive(Debug)]
pub enum SettingsError {
    UnknownKey { key: String },
    NotANumber { key: String, value: String },
    NotAllowed { key: String, value: String, allowed: Vec<String> },
    /// The file is not TOML.
    BadFile,
}

/// What a settings error says.
#[verifier::ext_equal]
pub enum SettingsErrorView {
    UnknownKey { key: Seq<char> },
    NotANumber { key: Seq<char>, value: Seq<char> },
    NotAllowed { key: Seq<char>, value: Seq<char>, allowed: Seq<Seq<char>> },
    BadFile,
}

impl View for SettingsError {
    type V = SettingsErrorView;

    open spec fn view(&self) -> SettingsErrorView {
        match *self {
            SettingsError::UnknownKey { key } => SettingsErrorView::UnknownKey { key: key@ },
            SettingsError::NotANumber { key, value } => SettingsErrorView::NotANumber {
                key: key@,
                value: value@,
            },
            SettingsError::NotAllowed { key, value, allowed } => SettingsErrorView::NotAllowed {
                key: key@,
                value: value@,
                allowed: views(allowed@),
            },
            SettingsError::BadFile => SettingsErrorView::BadFile,
        }
    }
}

/// The text of a settings error.
pub open spec fn settings_error_text(error: SettingsErrorView) -> Seq<char> {
    match error {
        SettingsErrorView::UnknownKey { key } => "unknown setting `"@ + key
            + "` — run `llama-matrix configure keys`"@,
        SettingsErrorView::NotANumber { key, value } => "`"@ + key + "` expects a number, got `"@
            + value + "`"@,
        SettingsErrorView::NotAllowed { key, value, allowed } => "`"@ + key
            + "` expects one of [\""@ + joined(allowed, "\", \""@) + "\"], got `"@ + value + "`"@,
        SettingsErrorView::BadFile => "llama-matrix.toml is not valid TOML"@,
    }
}

impl SettingsError {
    pub fn message(&self) -> (text: String)
        ensures
            text@ == settings_error_text(self@),
    {
        match self {
            SettingsError::UnknownKey { key } => "unknown setting `".to_owned().concat(
                key.as_str(),
            ).concat("` — run `llama-matrix configure keys`"),
            SettingsError::NotANumber { key, value } => "`".to_owned().concat(
                key.as_str(),
            ).concat("` expects a number, got `").concat(value.as_str()).concat("`"),
            SettingsError::NotAllowed { key, value, allowed } => "`".to_owned().concat(
                key.as_str(),
            ).concat("` expects one of [\"").concat(join(allowed, "\", \"").as_str()).concat(
                "\"], got `",
            ).concat(value.as_str()).concat("`"),
            SettingsError::BadFile => "llama-matrix.toml is not valid TOML".to_owned(),
        }
    }
}

// ---- TOML ---------------------------------------------------------------------------------

/// Whether a text is a TOML document whose root reads as a table. Not every TOML document does:
/// a table whose first key is the one that `toml` keeps for its own dates is read as a date,
/// or not at all.
pub uninterp spec fn toml_readable(document: Seq<char>) -> bool;

/// What a TOML document holds under a root key: the name of its type, and its text.
pub uninterp spec fn toml_at(document: Seq<char>, key: Seq<char>) -> Option<
    (Seq<char>, Seq<char>),
>;

/// The number that a TOML literal writes, as it is displayed.
pub uninterp spec fn toml_number_of(literal: Seq<char>) -> Option<Seq<char>>;

/// A TOML document with a root key set to a string; `None` if it is no TOML.
pub uninterp spec fn toml_with_text(
    document: Seq<char>,
    key: Seq<char>,
    value: Seq<char>,
) -> Option<Seq<char>>;

/// A TOML document with a root key set to a TOML literal; `None` if either is no TOML.
pub uninterp spec fn toml_with_literal(
    document: Seq<char>,
    key: Seq<char>,
    literal: Seq<char>,
) -> Option<Seq<char>>;

/// A TOML document without a root key; `None` if it is no TOML.
pub uninterp spec fn toml_without(document: Seq<char>, key: Seq<char>) -> Option<Seq<char>>;

/// The text of a value that is a string.
pub open spec fn as_text(held: Option<(Seq<char>, Seq<char>)>) -> Option<Seq<char>> {
    match held {
        Some((kind, text)) => if kind == "string"@ {
            Some(text)
        } else {
            None
        },
        None => None,
    }
}

/// The text of a value that is a number.
pub open spec fn as_number(held: Option<(Seq<char>, Seq<char>)>) -> Option<Seq<char>> {
    match held {
        Some((kind, text)) => if kind == "float"@ || kind == "integer"@ {
            Some(text)
        } else {
            None
        },
        None => None,
    }
}

/// Under every other root key two documents hold the same, be it a scalar or a table.
pub open spec fn same_but_for(after: Seq<char>, before: Seq<char>, key: Seq<char>) -> bool {
    forall|other: Seq<char>|
        other != key ==> #[trigger] toml_at(after, other) == toml_at(before, other)
}

/// What a position in a TOML document is inside of.
pub enum Inside {
    /// No string and no comment.
    Nothing,
    Comment,
    /// A string on one line, with this quote around it.
    Quoted(char),
    /// A string over several lines, with three of this quote around it.
    Long(char),
}

/// Three of a quote stand here.
pub open spec fn three_at(document: Seq<char>, at: int, quote: char) -> bool {
    at + 3 <= document.len() && document[at] == quote && document[at + 1] == quote && document[at
        + 2] == quote
}

/// A text up to the end of its first line, without the space there.
pub open spec fn rest_of_line(text: Seq<char>) -> Seq<char> {
    trim_back(pieces(text, '\n')[0])
}

/// The comments of a TOML document from a position on, each without the space at its end.
pub open spec fn comments_from(document: Seq<char>, at: nat, inside: Inside) -> Seq<Seq<char>>
    decreases document.len() + 3 - at,
{
    if at >= document.len() {
        Seq::empty()
    } else {
        let c = document[at as int];
        match inside {
            Inside::Nothing => if c == '#' {
                seq![rest_of_line(document.skip(at as int))] + comments_from(
                    document,
                    at + 1,
                    Inside::Comment,
                )
            } else if c == '"' || c == '\'' {
                if three_at(document, at as int, c) {
                    comments_from(document, at + 3, Inside::Long(c))
                } else {
                    comments_from(document, at + 1, Inside::Quoted(c))
                }
            } else {
                comments_from(document, at + 1, Inside::Nothing)
            },
            Inside::Comment => if c == '\n' {
                comments_from(document, at + 1, Inside::Nothing)
            } else {
                comments_from(document, at + 1, inside)
            },
            Inside::Quoted(quote) => if c == quote {
                comments_from(document, at + 1, Inside::Nothing)
            } else if c == '\\' && quote == '"' {
                comments_from(document, at + 2, inside)
            } else {
                comments_from(document, at + 1, inside)
            },
            Inside::Long(quote) => if three_at(document, at as int, quote) && !three_at(
                document,
                at as int + 1,
                quote,
            ) {
                comments_from(document, at + 3, Inside::Nothing)
            } else if c == '\\' && quote == '"' {
                comments_from(document, at + 2, inside)
            } else {
                comments_from(document, at + 1, inside)
            },
        }
    }
}

/// The comments of a TOML document.
pub open spec fn comments_of(document: Seq<char>) -> Seq<Seq<char>> {
    comments_from(document, 0, Inside::Nothing)
}

/// A line of a document ends with this.
pub open spec fn ends_a_line(document: Seq<char>, comment: Seq<char>) -> bool {
    exists|j: int|
        0 <= j < pieces(document, '\n').len() && ends(
            trim_back(#[trigger] pieces(document, '\n')[j]),
            comment,
        )
}

/// Every comment of a document is in another one.
pub open spec fn keeps_comments(after: Seq<char>, before: Seq<char>) -> bool {
    forall|i: int|
        0 <= i < comments_of(before).len() ==> ends_a_line(after, #[trigger] comments_of(before)[i])
}

/// What a document holds under a key is nothing, or a value that has no comment inside.
pub open spec fn is_scalar(held: Option<(Seq<char>, Seq<char>)>) -> bool {
    match held {
        Some((kind, _)) => kind == "string"@ || kind == "integer"@ || kind == "float"@ || kind
            == "boolean"@,
        None => true,
    }
}

/// A document in which a key can be set with every comment kept.
pub open spec fn comments_are_safe(document: Seq<char>, key: Seq<char>) -> bool {
    toml_readable(document) && is_scalar(toml_at(document, key))
}

/// `toml::Value` parsed from the text, and its `is_table`.
#[verifier::external_body]
fn toml_is_readable(document: &str) -> (r: bool)
    ensures
        r == toml_readable(document@),
{
    document.parse::<toml::Value>().is_ok_and(|root| root.is_table())
}

/// `toml::Value` parsed from the text, then `get`: the `type_str` of what stands under a root
/// key, with a string's own text, the `Display` of another scalar, and the `Debug` text of an
/// array or a table. `None` where the text is no TOML or there is no such key.
#[verifier::external_body]
fn toml_get(document: &str, key: &str) -> (r: Option<(String, String)>)
    ensures
        (match r {
            Some((kind, text)) => Some((kind@, text@)),
            None => None,
        }) == toml_at(document@, key@),
{
    let root: toml::Value = document.parse().ok()?;
    let value = root.get(key)?;
    let text = match value {
        toml::Value::String(text) => text.clone(),
        toml::Value::Integer(number) => number.to_string(),
        toml::Value::Float(number) => number.to_string(),
        toml::Value::Boolean(truth) => truth.to_string(),
        toml::Value::Datetime(date) => date.to_string(),
        toml::Value::Array(items) => format!("{items:?}"),
        toml::Value::Table(table) => format!("{table:?}"),
    };
    Some((value.type_str().to_string(), text))
}

/// `toml_edit::Value` parsed from the text: the `Display` of the float or the integer that it
/// writes, `None` where it is no TOML value or one of another type.
#[verifier::external_body]
fn toml_number(literal: &str) -> (r: Option<String>)
    ensures
        text_view(r) == toml_number_of(literal@),
{
    match literal.parse::<toml_edit::Value>().ok()? {
        toml_edit::Value::Integer(number) => Some(number.value().to_string()),
        toml_edit::Value::Float(number) => Some(number.value().to_string()),
        _ => None,
    }
}

/// 256 of one quote stand in a row from here on.
pub open spec fn quotes_from(text: Seq<char>, quote: char, from: int) -> bool {
    0 <= from && from + 256 <= text.len() && forall|i: int|
        from <= i < from + 256 ==> #[trigger] text[i] == quote
}

/// 256 double quotes, or 256 single quotes, stand in a row from here on.
pub open spec fn run_from(text: Seq<char>, from: int) -> bool {
    quotes_from(text, '"', from) || quotes_from(text, '\'', from)
}

/// No quote stands in a text 256 times in a row: those that write TOML count them in a byte.
pub open spec fn writable(text: Seq<char>) -> bool {
    forall|from: int| !#[trigger] run_from(text, from)
}

/// `toml_edit::DocumentMut` parsed from the text, a string put under a root key in the place and
/// with the `decor` (white space and comment) of what stood there, and the document as text
/// again. Where the new document is readable, the key holds that string; where the old one was
/// too, every other root key holds what it held. Every comment stays, where what stood under the
/// key was a scalar or nothing: a table or an array takes the comments inside it along. A run of
/// 256 quotes overflows the counter of `toml_write`, which encodes the string.
#[verifier::external_body]
fn toml_put_text(document: &str, key: &str, value: &str) -> (r: Option<String>)
    requires
        writable(value@),
    ensures
        text_view(r) == toml_with_text(document@, key@, value@),
        r is Some && toml_readable(r->0@) ==> toml_at(r->0@, key@) == Some(("string"@, value@)),
        r is Some && toml_readable(document@) && toml_readable(r->0@) ==> same_but_for(
            r->0@,
            document@,
            key@,
        ),
        r is Some && comments_are_safe(document@, key@) ==> keeps_comments(r->0@, document@),
{
    let mut parsed: toml_edit::DocumentMut = document.parse().ok()?;
    let item = &mut parsed[key];
    let decor = item.as_value().map(|old| old.decor().clone());
    *item = toml_edit::value(value);
    *item.as_value_mut()?.decor_mut() = decor.unwrap_or_default();
    Some(parsed.to_string())
}

/// `toml_edit::DocumentMut` and `toml_edit::Value` parsed from the texts, the value put under a
/// root key in the place and with the `decor` of what stood there, and the document as text
/// again. Where the new document is readable, the key holds the number that the literal writes,
/// or no number where it writes none; where the old one was too, every other root key holds
/// what it held. Every comment stays, as for a string.
#[verifier::external_body]
fn toml_put_literal(document: &str, key: &str, literal: &str) -> (r: Option<String>)
    ensures
        text_view(r) == toml_with_literal(document@, key@, literal@),
        r is Some && toml_readable(r->0@) ==> as_number(toml_at(r->0@, key@)) == toml_number_of(
            literal@,
        ),
        r is Some && toml_readable(document@) && toml_readable(r->0@) ==> same_but_for(
            r->0@,
            document@,
            key@,
        ),
        r is Some && comments_are_safe(document@, key@) ==> keeps_comments(r->0@, document@),
{
    let mut parsed: toml_edit::DocumentMut = document.parse().ok()?;
    let value: toml_edit::Value = literal.parse().ok()?;
    let item = &mut parsed[key];
    let decor = item.as_value().map(|old| old.decor().clone());
    *item = toml_edit::value(value);
    *item.as_value_mut()?.decor_mut() = decor.unwrap_or_default();
    Some(parsed.to_string())
}

/// `toml_edit::DocumentMut` parsed from the text, `remove` of a root key, and the document as
/// text again. Where the new document is readable, the key holds nothing; where the old one was
/// too, every other root key holds what it held. The comments above the key and beside it go
/// with it; where there is no such key, every comment stays. Of other comments nothing is
/// stated where there is one: which are the key's own is not to be told from the text alone.
#[verifier::external_body]
fn toml_remove(document: &str, key: &str) -> (r: Option<String>)
    ensures
        text_view(r) == toml_without(document@, key@),
        r is Some && toml_readable(r->0@) ==> toml_at(r->0@, key@) is None,
        r is Some && toml_readable(document@) && toml_readable(r->0@) ==> same_but_for(
            r->0@,
            document@,
            key@,
        ),
        r is Some && comments_are_safe(document@, key@) && toml_at(document@, key@) is None
            ==> keeps_comments(r->0@, document@),
{
    let mut parsed: toml_edit::DocumentMut = document.parse().ok()?;
    parsed.as_table_mut().remove(key);
    Some(parsed.to_string())
}

/// Can the text of `llama-matrix.toml` be read, so that its settings are shown as it has them?
pub fn is_readable(text: &str) -> (r: bool)
    ensures
        r == toml_readable(text@),
{
    toml_is_readable(text)
}

/// What the text of `llama-matrix.toml` holds under a root key, a setting's or a table's: the
/// name of its type, and its text.
pub fn held(text: &str, key: &str) -> (r: Option<(String, String)>)
    ensures
        (match r {
            Some((kind, value)) => Some((kind@, value@)),
            None => None,
        }) == toml_at(text@, key@),
{
    toml_get(text, key)
}

// ---- reading and writing ------------------------------------------------------------------

/// The setting with this key.
pub open spec fn setting_for(list: Seq<SettingView>, key: Seq<char>) -> Option<SettingView>
    decreases list.len(),
{
    if list.len() == 0 {
        None
    } else if list[0].key == key {
        Some(list[0])
    } else {
        setting_for(list.skip(1), key)
    }
}

fn find(key: &str) -> (r: Result<Setting, SettingsError>)
    ensures
        match r {
            Ok(setting) => setting_for(known_settings(), key@) == Some(setting@),
            Err(error) => setting_for(known_settings(), key@) is None && error@ == (
            SettingsErrorView::UnknownKey { key: key@ }),
        },
{
    let mut list = settings();
    let ghost all = known_settings();
    let ghost mut done: int = 0;
    proof {
        assert(all.skip(0) =~= all);
    }
    while list.len() > 0
        invariant
            all == known_settings(),
            0 <= done <= all.len(),
            list@.len() == all.len() - done,
            views(list@) == all.skip(done),
            setting_for(all.skip(done), key@) == setting_for(all, key@),
        decreases list@.len(),
    {
        let ghost left = list@;
        let setting = list.remove(0);
        proof {
            assert(views(left)[0] == all.skip(done)[0]);
            assert(all.skip(done).skip(1) =~= all.skip(done + 1));
            assert forall|i: int| 0 <= i < list@.len() implies #[trigger] views(list@)[i]
                == all.skip(done + 1)[i] by {
                assert(list@[i] == left[i + 1]);
                assert(views(left)[i + 1] == all.skip(done)[i + 1]);
            }
            assert(views(list@) =~= all.skip(done + 1));
        }
        if same(setting.key, key) {
            return Ok(setting);
        }
        proof {
            done = done + 1;
        }
    }
    Err(SettingsError::UnknownKey { key: key.to_owned() })
}

/// A displayed number as a TOML float: with a point, where it has none.
pub open spec fn float_literal(display: Seq<char>) -> Seq<char> {
    if display == "NaN"@ {
        "nan"@
    } else if occurs_in(display, "."@) || occurs_in(display, "inf"@) {
        display
    } else {
        display + ".0"@
    }
}

fn literal_of(display: &str) -> (text: String)
    ensures
        text@ == float_literal(display@),
{
    if same(display, "NaN") {
        "nan".to_owned()
    } else if contains(display, ".") || contains(display, "inf") {
        display.to_owned()
    } else {
        display.to_owned().concat(".0")
    }
}

/// A value as it is shown and stored, or why it is not one of the setting's. `number` is the
/// displayed number that the value writes, where it writes one: its literal reads back as it.
pub open spec fn normalized(
    setting: SettingView,
    value: Seq<char>,
    number: Option<Seq<char>>,
) -> Result<Seq<char>, SettingsErrorView> {
    match setting.kind {
        KindView::Str => Ok(value),
        KindView::Float => match number {
            Some(display) => if toml_number_of(float_literal(display)) == Some(display) {
                Ok(display)
            } else {
                Err(SettingsErrorView::NotANumber { key: setting.key, value })
            },
            None => Err(SettingsErrorView::NotANumber { key: setting.key, value }),
        },
        KindView::Enum(allowed) => if allowed.contains(lower(trim_both(value))) {
            Ok(lower(trim_both(value)))
        } else {
            Err(SettingsErrorView::NotAllowed { key: setting.key, value, allowed })
        },
    }
}

fn normalize(setting: &Setting, value: &str, number: Option<&String>) -> (r: Result<
    String,
    SettingsError,
>)
    ensures
        match r {
            Ok(display) => normalized(setting@, value@, given_text(number)) == Ok::<
                Seq<char>,
                SettingsErrorView,
            >(display@),
            Err(error) => normalized(setting@, value@, given_text(number)) == Err::<
                Seq<char>,
                SettingsErrorView,
            >(error@),
        },
{
    match &setting.kind {
        Kind::Str => Ok(value.to_owned()),
        Kind::Float => {
            if let Some(display) = number {
                if let Some(read) = toml_number(literal_of(display.as_str()).as_str()) {
                    if same(read.as_str(), display.as_str()) {
                        return Ok(read);
                    }
                }
            }
            Err(
                SettingsError::NotANumber {
                    key: setting.key.to_owned(),
                    value: value.to_owned(),
                },
            )
        },
        Kind::Enum(allowed) => {
            let chosen = to_lower(trim(value).as_str());
            if has_name(allowed, chosen.as_str()) {
                Ok(chosen)
            } else {
                Err(
                    SettingsError::NotAllowed {
                        key: setting.key.to_owned(),
                        value: value.to_owned(),
                        allowed: crate::units::copied_names(allowed),
                    },
                )
            }
        },
    }
}

pub open spec fn given_text(number: Option<&String>) -> Option<Seq<char>> {
    match number {
        Some(text) => Some(text@),
        None => None,
    }
}

/// A document with a setting written into it.
pub open spec fn written(document: Seq<char>, setting: SettingView, display: Seq<char>) -> Option<
    Seq<char>,
> {
    if setting.kind == KindView::Float {
        toml_with_literal(document, setting.key, float_literal(display))
    } else {
        toml_with_text(document, setting.key, display)
    }
}

/// What setting a value comes to: how it is shown, and the new document.
pub open spec fn set_in(
    document: Seq<char>,
    key: Seq<char>,
    value: Seq<char>,
    number: Option<Seq<char>>,
) -> Result<(Seq<char>, Seq<char>), SettingsErrorView> {
    match setting_for(known_settings(), key) {
        Some(setting) => match normalized(setting, value, number) {
            Ok(display) => match written(document, setting, display) {
                Some(after) => Ok((display, after)),
                None => Err(SettingsErrorView::BadFile),
            },
            Err(error) => Err(error),
        },
        None => Err(SettingsErrorView::UnknownKey { key }),
    }
}

proof fn lemma_setting_has_its_key(list: Seq<SettingView>, key: Seq<char>)
    ensures
        setting_for(list, key) is Some ==> setting_for(list, key)->0.key == key,
    decreases list.len(),
{
    if list.len() > 0 {
        lemma_setting_has_its_key(list.skip(1), key);
    }
}

proof fn lemma_trimmed_front_is_writable(text: Seq<char>)
    requires
        writable(text),
    ensures
        writable(trim_front(text)),
    decreases text.len(),
{
    if text.len() > 0 && is_space(text[0]) {
        let rest = text.skip(1);
        assert(writable(rest)) by {
            assert forall|from: int| !#[trigger] run_from(rest, from) by {
                assert(!run_from(text, from + 1));
                if quotes_from(rest, '"', from) {
                    assert forall|i: int| from + 1 <= i < from + 257 implies #[trigger] text[i]
                        == '"' by {
                        assert(rest[i - 1] == text[i]);
                    }
                }
                if quotes_from(rest, '\'', from) {
                    assert forall|i: int| from + 1 <= i < from + 257 implies #[trigger] text[i]
                        == '\'' by {
                        assert(rest[i - 1] == text[i]);
                    }
                }
            }
        }
        lemma_trimmed_front_is_writable(rest);
    }
}

proof fn lemma_trimmed_back_is_writable(text: Seq<char>)
    requires
        writable(text),
    ensures
        writable(trim_back(text)),
    decreases text.len(),
{
    if text.len() > 0 && is_space(text.last()) {
        let rest = text.drop_last();
        assert(writable(rest)) by {
            assert forall|from: int| !#[trigger] run_from(rest, from) by {
                assert(!run_from(text, from));
                if quotes_from(rest, '"', from) {
                    assert forall|i: int| from <= i < from + 256 implies #[trigger] text[i]
                        == '"' by {
                        assert(rest[i] == text[i]);
                    }
                }
                if quotes_from(rest, '\'', from) {
                    assert forall|i: int| from <= i < from + 256 implies #[trigger] text[i]
                        == '\'' by {
                        assert(rest[i] == text[i]);
                    }
                }
            }
        }
        lemma_trimmed_back_is_writable(rest);
    }
}

proof fn lemma_lowered_is_writable(text: Seq<char>)
    requires
        writable(text),
    ensures
        writable(lower(text)),
{
    assert forall|from: int| !#[trigger] run_from(lower(text), from) by {
        assert(!run_from(text, from));
        if quotes_from(lower(text), '"', from) {
            assert forall|i: int| from <= i < from + 256 implies #[trigger] text[i] == '"' by {
                assert(lower(text)[i] == '"');
            }
        }
        if quotes_from(lower(text), '\'', from) {
            assert forall|i: int| from <= i < from + 256 implies #[trigger] text[i] == '\'' by {
                assert(lower(text)[i] == '\'');
            }
        }
    }
}

proof fn lemma_normalized_is_writable(
    setting: SettingView,
    value: Seq<char>,
    number: Option<Seq<char>>,
)
    requires
        writable(value),
    ensures
        !(setting.kind is Float) && normalized(setting, value, number) is Ok ==> writable(
            normalized(setting, value, number)->Ok_0,
        ),
{
    lemma_trimmed_front_is_writable(value);
    lemma_trimmed_back_is_writable(trim_front(value));
    lemma_lowered_is_writable(trim_both(value));
}

/// Can a value be written? Not if a quote stands in it 256 times in a row.
pub fn is_writable(value: &str) -> (r: bool)
    ensures
        r == writable(value@),
{
    let chars = chars_of(value);
    let mut double: usize = 0;
    let mut single: usize = 0;
    let mut at: usize = 0;
    while at < chars.len()
        invariant
            at <= chars@.len(),
            chars@ == value@,
            double <= at,
            single <= at,
            double < 256,
            single < 256,
            forall|i: int| at - double <= i < at ==> #[trigger] value@[i] == '"',
            forall|i: int| at - single <= i < at ==> #[trigger] value@[i] == '\'',
            double < at ==> value@[at - double - 1] != '"',
            single < at ==> value@[at - single - 1] != '\'',
            forall|from: int| from + 256 <= at ==> !#[trigger] run_from(value@, from),
        decreases chars@.len() - at,
    {
        let c = chars[at];
        at = at + 1;
        if c == '"' {
            double = double + 1;
        } else {
            double = 0;
        }
        if c == '\'' {
            single = single + 1;
        } else {
            single = 0;
        }
        if double == 256 {
            proof {
                assert(quotes_from(value@, '"', at - 256));
                assert(run_from(value@, at - 256));
            }
            return false;
        }
        if single == 256 {
            proof {
                assert(quotes_from(value@, '\'', at - 256));
                assert(run_from(value@, at - 256));
            }
            return false;
        }
        proof {
            assert forall|from: int| from + 256 <= at implies !#[trigger] run_from(
                value@,
                from,
            ) by {
                if from + 256 == at {
                    if quotes_from(value@, '"', from) {
                        assert(value@[at - double - 1] == '"');
                    }
                    if quotes_from(value@, '\'', from) {
                        assert(value@[at - single - 1] == '\'');
                    }
                }
            }
        }
    }
    true
}

/// Set `key` to `value` in the text of `llama-matrix.toml`: gives how the value is shown, and
/// the new text. Where the new text is readable, the setting is shown as that value; where the
/// old one was too, every other setting is shown as before, and every table holds what it held.
/// The comments stay, unless the key held a table, an array or a date, of which none is a
/// setting's: then nothing is stated of them. `number` is the displayed number that `value` writes, where it writes one.
pub fn set(text: &str, key: &str, value: &str, number: Option<&String>) -> (r: Result<
    (String, String),
    SettingsError,
>)
    requires
        writable(value@),
    ensures
        match r {
            Ok((display, after)) => {
                &&& set_in(text@, key@, value@, given_text(number)) == Ok::<
                    (Seq<char>, Seq<char>),
                    SettingsErrorView,
                >((display@, after@))
                &&& toml_readable(after@) ==> shown(
                    after@,
                    setting_for(known_settings(), key@)->0,
                ) == display@
                &&& toml_readable(text@) && toml_readable(after@) ==> {
                    &&& same_but_for(after@, text@, key@)
                    &&& forall|other: SettingView|
                        other.key != key@ ==> #[trigger] shown(after@, other) == shown(
                            text@,
                            other,
                        )
                }
                &&& comments_are_safe(text@, key@) ==> keeps_comments(after@, text@)
            },
            Err(error) => set_in(text@, key@, value@, given_text(number)) == Err::<
                (Seq<char>, Seq<char>),
                SettingsErrorView,
            >(error@),
        },
{
    proof {
        lemma_setting_has_its_key(known_settings(), key@);
    }
    let setting = match find(key) {
        Ok(setting) => setting,
        Err(error) => {
            return Err(error);
        },
    };
    let display = match normalize(&setting, value, number) {
        Ok(display) => display,
        Err(error) => {
            return Err(error);
        },
    };
    proof {
        lemma_normalized_is_writable(setting@, value@, given_text(number));
    }
    let after = match setting.kind {
        Kind::Float => toml_put_literal(text, key, literal_of(display.as_str()).as_str()),
        Kind::Str => toml_put_text(text, key, display.as_str()),
        Kind::Enum(_) => toml_put_text(text, key, display.as_str()),
    };
    match after {
        Some(after) => {
            proof {
                if same_but_for(after@, text@, key@) {
                    assert forall|other: SettingView| other.key != key@ implies #[trigger] shown(
                        after@,
                        other,
                    ) == shown(text@, other) by {
                        assert(toml_at(after@, other.key) == toml_at(text@, other.key));
                    }
                }
            }
            Ok((display, after))
        },
        None => Err(SettingsError::BadFile),
    }
}

/// Remove `key`'s override from the text of `llama-matrix.toml`. Where the new text is readable,
/// the setting is shown as its default; where the old one was too, every other setting is shown
/// as before, and every table holds what it held.
pub fn unset(text: &str, key: &str) -> (r: Result<String, SettingsError>)
    ensures
        match r {
            Ok(after) => {
                &&& setting_for(known_settings(), key@) is Some
                &&& toml_without(text@, key@) == Some(after@)
                &&& toml_readable(after@) ==> shown(
                    after@,
                    setting_for(known_settings(), key@)->0,
                ) == setting_for(known_settings(), key@)->0.default
                &&& toml_readable(text@) && toml_readable(after@) ==> {
                    &&& same_but_for(after@, text@, key@)
                    &&& forall|other: SettingView|
                        other.key != key@ ==> #[trigger] shown(after@, other) == shown(
                            text@,
                            other,
                        )
                }
                &&& comments_are_safe(text@, key@) && toml_at(text@, key@) is None
                    ==> keeps_comments(after@, text@)
            },
            Err(error) => if setting_for(known_settings(), key@) is None {
                error@ == (SettingsErrorView::UnknownKey { key: key@ })
            } else {
                toml_without(text@, key@) is None && error@ == SettingsErrorView::BadFile
            },
        },
{
    proof {
        lemma_setting_has_its_key(known_settings(), key@);
    }
    if let Err(error) = find(key) {
        return Err(error);
    }
    match toml_remove(text, key) {
        Some(after) => {
            proof {
                if same_but_for(after@, text@, key@) {
                    assert forall|other: SettingView| other.key != key@ implies #[trigger] shown(
                        after@,
                        other,
                    ) == shown(text@, other) by {
                        assert(toml_at(after@, other.key) == toml_at(text@, other.key));
                    }
                }
            }
            Ok(after)
        },
        None => Err(SettingsError::BadFile),
    }
}

/// What a setting is shown as: what the file holds, else its default.
pub open spec fn shown(document: Seq<char>, setting: SettingView) -> Seq<char> {
    let held = if setting.kind == KindView::Float {
        as_number(toml_at(document, setting.key))
    } else {
        as_text(toml_at(document, setting.key))
    };
    match held {
        Some(value) => value,
        None => setting.default,
    }
}

fn effective(text: &str, setting: &Setting) -> (value: String)
    ensures
        value@ == shown(text@, setting@),
{
    if let Some((kind, value)) = toml_get(text, setting.key) {
        let fits = match &setting.kind {
            Kind::Float => same(kind.as_str(), "float") || same(kind.as_str(), "integer"),
            Kind::Str => same(kind.as_str(), "string"),
            Kind::Enum(_) => same(kind.as_str(), "string"),
        };
        if fits {
            return value;
        }
    }
    setting.default.to_owned()
}

/// The effective value of one setting: what the file holds, else its default.
pub fn get(text: &str, key: &str) -> (r: Result<String, SettingsError>)
    ensures
        match r {
            Ok(value) => setting_for(known_settings(), key@) is Some && value@ == shown(
                text@,
                setting_for(known_settings(), key@)->0,
            ),
            Err(error) => setting_for(known_settings(), key@) is None && error@ == (
            SettingsErrorView::UnknownKey { key: key@ }),
        },
{
    match find(key) {
        Ok(setting) => Ok(effective(text, &setting)),
        Err(error) => Err(error),
    }
}

/// Every setting with its effective value.
pub fn list(text: &str) -> (r: Vec<(&'static str, String)>)
    ensures
        r@.len() == known_settings().len(),
        forall|i: int|
            0 <= i < r@.len() ==> {
                &&& (#[trigger] r@[i]).0@ == known_settings()[i].key
                &&& r@[i].1@ == shown(text@, known_settings()[i])
            },
{
    let all = settings();
    let mut r: Vec<(&'static str, String)> = Vec::new();
    let mut at: usize = 0;
    while at < all.len()
        invariant
            at <= all@.len(),
            views(all@) == known_settings(),
            r@.len() == at,
            forall|i: int|
                0 <= i < at ==> {
                    &&& (#[trigger] r@[i]).0@ == known_settings()[i].key
                    &&& r@[i].1@ == shown(text@, known_settings()[i])
                },
        decreases all@.len() - at,
    {
        proof {
            assert(views(all@)[at as int] == all@[at as int]@);
        }
        r.push((all[at].key, effective(text, &all[at])));
        at = at + 1;
    }
    proof {
        assert(views(all@).len() == all@.len());
    }
    r
}

// ---- the keys -----------------------------------------------------------------------------

proof fn lemma_found_is_listed(list: Seq<SettingView>, key: Seq<char>)
    ensures
        setting_for(list, key) is Some <==> exists|i: int|
            0 <= i < list.len() && (#[trigger] list[i]).key == key,
        setting_for(list, key) is Some ==> list.contains(setting_for(list, key)->0),
    decreases list.len(),
{
    if list.len() > 0 {
        let rest = list.skip(1);
        lemma_found_is_listed(rest, key);
        assert forall|i: int| 0 <= i < rest.len() implies #[trigger] rest[i] == list[i + 1] by {}
        if list[0].key != key {
            if exists|i: int| 0 <= i < list.len() && (#[trigger] list[i]).key == key {
                let i = choose|i: int| 0 <= i < list.len() && (#[trigger] list[i]).key == key;
                assert(rest[i - 1].key == key);
            }
            if setting_for(rest, key) is Some {
                let i = choose|i: int| 0 <= i < rest.len() && (#[trigger] rest[i]).key == key;
                assert(list[i + 1].key == key);
                let j = choose|j: int| 0 <= j < rest.len() && rest[j] == setting_for(rest, key)->0;
                assert(list[j + 1] == setting_for(rest, key)->0);
            }
        }
    }
}

/// No two settings have the same key.
pub proof fn law_keys_are_distinct(i: int, j: int)
    requires
        0 <= i < j < known_settings().len(),
    ensures
        known_settings()[i].key != known_settings()[j].key,
{
    reveal_strlit("config");
    reveal_strlit("endpoint");
    reveal_strlit("budget");
    reveal_strlit("margin");
    reveal_strlit("host_budget");
    reveal_strlit("host_margin");
    reveal_strlit("host_cache_gb");
    reveal_strlit("on_host_overflow");
    reveal_strlit("strategy");
    reveal_strlit("on_overflow");
    reveal_strlit("on_unconfirmed");
    reveal_strlit("probe_image_size");
    let a = known_settings()[i].key;
    let b = known_settings()[j].key;
    if a.len() == b.len() {
        assert(a[0] != b[0] || a[5] != b[5]);
    }
}

/// A key is found exactly if it is one of those listed, and what is found is the setting that
/// is listed under it.
pub proof fn law_listed_keys_are_those_found(key: Seq<char>)
    ensures
        setting_for(known_settings(), key) is Some <==> exists|i: int|
            0 <= i < known_settings().len() && (#[trigger] known_settings()[i]).key == key,
        forall|i: int|
            0 <= i < known_settings().len() && (#[trigger] known_settings()[i]).key == key
                ==> setting_for(known_settings(), key) == Some(known_settings()[i]),
{
    lemma_found_is_listed(known_settings(), key);
    lemma_setting_has_its_key(known_settings(), key);
    assert forall|i: int|
        0 <= i < known_settings().len() && (#[trigger] known_settings()[i]).key == key implies
        setting_for(known_settings(), key) == Some(known_settings()[i]) by {
        let found = setting_for(known_settings(), key)->0;
        let j = choose|j: int| 0 <= j < known_settings().len() && known_settings()[j] == found;
        if i < j {
            law_keys_are_distinct(i, j);
        } else if j < i {
            law_keys_are_distinct(j, i);
        }
    }
}

// ---- which values a setting takes ---------------------------------------------------------

/// A choice is taken trimmed and in any case, exactly if it is one of its setting's words, and is
/// shown and stored in lower case.
pub proof fn law_a_choice_is_one_of_its_words(
    setting: SettingView,
    value: Seq<char>,
    number: Option<Seq<char>>,
)
    requires
        setting.kind is Enum,
    ensures
        setting.kind->Enum_0.contains(lower(trim_both(value))) <==> normalized(
            setting,
            value,
            number,
        ) is Ok,
        normalized(setting, value, number) is Ok ==> normalized(setting, value, number)->Ok_0
            == lower(trim_both(value)),
{
}

/// Free text is taken as it is, and a number exactly if the value writes one.
pub proof fn law_texts_are_taken_as_they_are(
    setting: SettingView,
    value: Seq<char>,
    number: Option<Seq<char>>,
)
    ensures
        setting.kind is Str ==> normalized(setting, value, number) is Ok && normalized(
            setting,
            value,
            number,
        )->Ok_0 == value,
        setting.kind is Float && number is None ==> normalized(setting, value, number) is Err,
        setting.kind is Float && number is Some && toml_number_of(float_literal(number->0))
            == number ==> normalized(setting, value, number) is Ok && normalized(
            setting,
            value,
            number,
        )->Ok_0 == number->0,
{
}

/// Which words each choice offers.
pub proof fn law_the_words_of_each_choice(key: Seq<char>)
    requires
        setting_for(known_settings(), key) is Some,
    ensures
        key == "on_host_overflow"@ || key == "on_unconfirmed"@ ==> setting_for(
            known_settings(),
            key,
        )->0.kind == KindView::Enum(seq!["warn"@, "exclude"@, "error"@]),
        key == "on_overflow"@ ==> setting_for(known_settings(), key)->0.kind == KindView::Enum(
            seq!["group"@, "error"@],
        ),
        key == "strategy"@ ==> setting_for(known_settings(), key)->0.kind == KindView::Enum(
            seq!["flat"@, "family"@],
        ),
        key == "budget"@ || key == "margin"@ || key == "host_budget"@ || key == "host_margin"@
            || key == "host_cache_gb"@ ==> setting_for(known_settings(), key)->0.kind
            == KindView::Float,
        key == "config"@ || key == "endpoint"@ || key == "probe_image_size"@ ==> setting_for(
            known_settings(),
            key,
        )->0.kind == KindView::Str,
        key == "margin"@ || key == "host_margin"@ ==> setting_for(
            known_settings(),
            key,
        )->0.default == "4.0"@,
        key == "host_cache_gb"@ ==> setting_for(known_settings(), key)->0.default == "8.0"@,
        key == "endpoint"@ ==> setting_for(known_settings(), key)->0.default
            == "http://localhost:8080"@,
        key == "on_host_overflow"@ || key == "on_unconfirmed"@ ==> setting_for(
            known_settings(),
            key,
        )->0.default == "warn"@,
        key == "on_overflow"@ ==> setting_for(known_settings(), key)->0.default == "group"@,
        key == "strategy"@ ==> setting_for(known_settings(), key)->0.default == "flat"@,
        key == "probe_image_size"@ ==> setting_for(known_settings(), key)->0.default
            == "1024x1024"@,
{
    law_listed_keys_are_those_found(key);
    let all = known_settings();
    assert(all[0].key == "config"@);
    assert(all[1].key == "endpoint"@);
    assert(all[2].key == "budget"@);
    assert(all[3].key == "margin"@);
    assert(all[4].key == "host_budget"@);
    assert(all[5].key == "host_margin"@);
    assert(all[6].key == "host_cache_gb"@);
    assert(all[7].key == "on_host_overflow"@);
    assert(all[8].key == "strategy"@);
    assert(all[9].key == "on_overflow"@);
    assert(all[10].key == "on_unconfirmed"@);
    assert(all[11].key == "probe_image_size"@);
}

/// A setting is shown as the file has it, where it is of the setting's type, else as its
/// default.
pub proof fn law_a_setting_is_shown_as_the_file_has_it(
    document: Seq<char>,
    setting: SettingView,
    kind: Seq<char>,
    text: Seq<char>,
)
    requires
        toml_at(document, setting.key) == Some((kind, text)),
    ensures
        !(setting.kind is Float) && kind == "string"@ ==> shown(document, setting) == text,
        setting.kind is Float && (kind == "float"@ || kind == "integer"@) ==> shown(
            document,
            setting,
        ) == text,
        setting.kind is Float && kind == "string"@ ==> shown(document, setting)
            == setting.default,
        !(setting.kind is Float) && (kind == "float"@ || kind == "integer"@) ==> shown(
            document,
            setting,
        ) == setting.default,
{
    reveal_strlit("string");
    reveal_strlit("float");
    reveal_strlit("integer");
    assert("string"@.len() == 6 && "float"@.len() == 5 && "integer"@.len() == 7);
}

/// A key that no setting has is refused, and so is a value that its setting does not take; a
/// number is written as a number, and everything else as a text.
pub proof fn law_how_a_setting_is_written(
    document: Seq<char>,
    key: Seq<char>,
    value: Seq<char>,
    number: Option<Seq<char>>,
)
    ensures
        setting_for(known_settings(), key) is None ==> set_in(document, key, value, number) == Err::<
            (Seq<char>, Seq<char>),
            SettingsErrorView,
        >(SettingsErrorView::UnknownKey { key }),
        setting_for(known_settings(), key) is Some && normalized(
            setting_for(known_settings(), key)->0,
            value,
            number,
        ) is Err ==> set_in(document, key, value, number) is Err,
        key == "budget"@ && set_in(document, key, value, number) is Ok ==> toml_with_literal(
            document,
            key,
            float_literal(set_in(document, key, value, number)->Ok_0.0),
        ) == Some(set_in(document, key, value, number)->Ok_0.1),
        key == "strategy"@ && set_in(document, key, value, number) is Ok ==> toml_with_text(
            document,
            key,
            lower(trim_both(value)),
        ) == Some(set_in(document, key, value, number)->Ok_0.1),
        key == "config"@ && set_in(document, key, value, number) is Ok ==> toml_with_text(
            document,
            key,
            value,
        ) == Some(set_in(document, key, value, number)->Ok_0.1),
{
    law_listed_keys_are_those_found(key);
    if setting_for(known_settings(), key) is Some {
        law_the_words_of_each_choice(key);
    }
}

/// A number without a point is written with one, and any other as it is shown.
pub proof fn law_a_number_is_written_with_a_point(n: nat, tenth: nat)
    requires
        tenth < 10,
    ensures
        float_literal(digits(n)) == digits(n) + ".0"@,
        float_literal(digits(n).push('.').push(digit_char(tenth))) == digits(n).push('.').push(
            digit_char(tenth),
        ),
{
    reveal_strlit(".");
    reveal_strlit("inf");
    reveal_strlit("NaN");
    let s = digits(n);
    law_digits_are_read_back(n);
    assert(is_digit(s[0]));
    assert("NaN"@[0] == 'N');
    if occurs_in(s, "."@) {
        let at = choose|at: int| occurs_at(s, "."@, at);
        assert(s.subrange(at, at + 1)[0] == '.');
        assert(is_digit(s[at]));
    }
    if occurs_in(s, "inf"@) {
        let at = choose|at: int| occurs_at(s, "inf"@, at);
        assert(s.subrange(at, at + 3)[0] == 'i');
        assert(is_digit(s[at]));
    }
    let t = s.push('.').push(digit_char(tenth));
    assert(t[0] == s[0]);
    assert(t.subrange(s.len() as int, s.len() as int + 1) =~= "."@);
    assert(occurs_at(t, "."@, s.len() as int));
}

} // verus!
