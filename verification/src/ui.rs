//! A small palette for what is shown to a person, and the lines that flag an outcome.
//!
//! Whether to colour is the frontend's to say: only where the output is a terminal, and
//! nobody asked for none.

use vstd::prelude::*;
use vstd::string::*;

verus! {

/// A text in a colour, given as the parameters of the terminal's escape.
pub open spec fn painted(code: Seq<char>, text: Seq<char>, colored: bool) -> Seq<char> {
    if colored {
        "\x1b["@ + code + "m"@ + text + "\x1b[0m"@
    } else {
        text
    }
}

fn paint(code: &str, text: &str, colored: bool) -> (r: String)
    ensures
        r@ == painted(code@, text@, colored),
{
    if colored {
        "\x1b[".to_owned().concat(code).concat("m").concat(text).concat("\x1b[0m")
    } else {
        text.to_owned()
    }
}

pub fn green(text: &str, colored: bool) -> (r: String)
    ensures
        r@ == painted("1;32"@, text@, colored),
{
    paint("1;32", text, colored)
}

pub fn red(text: &str, colored: bool) -> (r: String)
    ensures
        r@ == painted("1;31"@, text@, colored),
{
    paint("1;31", text, colored)
}

pub fn yellow(text: &str, colored: bool) -> (r: String)
    ensures
        r@ == painted("1;33"@, text@, colored),
{
    paint("1;33", text, colored)
}

pub fn cyan(text: &str, colored: bool) -> (r: String)
    ensures
        r@ == painted("1;36"@, text@, colored),
{
    paint("1;36", text, colored)
}

pub fn bold(text: &str, colored: bool) -> (r: String)
    ensures
        r@ == painted("1"@, text@, colored),
{
    paint("1", text, colored)
}

pub fn dim(text: &str, colored: bool) -> (r: String)
    ensures
        r@ == painted("2"@, text@, colored),
{
    paint("2", text, colored)
}

/// How a line is flagged.
#[derive(Debug, Clone, Copy, PartialEq, Eq, Structural)]
pub enum Level {
    /// Nothing to flag.
    Info,
    /// It worked.
    Done,
    /// A headline over something that did not.
    Alert,
    Warning,
    Error,
}

/// One line to show.
#[derive(Debug)]
pub struct Line {
    pub level: Level,
    pub text: String,
}

/// What a line says.
#[verifier::ext_equal]
pub struct LineView {
    pub level: Level,
    pub text: Seq<char>,
}

impl View for Line {
    type V = LineView;

    open spec fn view(&self) -> LineView {
        LineView { level: self.level, text: self.text@ }
    }
}

/// A line as it is shown: behind its flag, where it has one. The flag is a glyph or a word,
/// so that it is seen without colour.
pub open spec fn flagged(line: LineView, colored: bool) -> Seq<char> {
    match line.level {
        Level::Info => line.text,
        Level::Done => painted("1;32"@, "✓"@, colored) + " "@ + line.text,
        Level::Alert => painted("1;33"@, "⚠"@, colored) + " "@ + line.text,
        Level::Warning => painted("1;33"@, "warning:"@, colored) + " "@ + line.text,
        Level::Error => painted("1;31"@, "error:"@, colored) + " "@ + line.text,
    }
}

impl Line {
    pub fn new(level: Level, text: String) -> (r: Line)
        ensures
            r@ == (LineView { level, text: text@ }),
    {
        Line { level, text }
    }

    /// The line as it is shown.
    pub fn shown(&self, colored: bool) -> (r: String)
        ensures
            r@ == flagged(self@, colored),
    {
        match self.level {
            Level::Info => self.text.clone(),
            Level::Done => green("✓", colored).concat(" ").concat(self.text.as_str()),
            Level::Alert => yellow("⚠", colored).concat(" ").concat(self.text.as_str()),
            Level::Warning => yellow("warning:", colored).concat(" ").concat(self.text.as_str()),
            Level::Error => red("error:", colored).concat(" ").concat(self.text.as_str()),
        }
    }
}

/// A line shows its own text at its end, after one word for its level; without colour there is
/// nothing else in it.
pub proof fn law_a_line_shows_its_text(line: LineView, colored: bool)
    ensures
        flagged(line, colored).len() >= line.text.len(),
        flagged(line, colored).skip(flagged(line, colored).len() - line.text.len()) == line.text,
        flagged(line, false) == match line.level {
            Level::Info => line.text,
            Level::Done => "✓ "@ + line.text,
            Level::Alert => "⚠ "@ + line.text,
            Level::Warning => "warning: "@ + line.text,
            Level::Error => "error: "@ + line.text,
        },
{
    let text = flagged(line, colored);
    assert(text.skip(text.len() - line.text.len()) =~= line.text);
    reveal_strlit("✓ ");
    reveal_strlit("⚠ ");
    reveal_strlit("warning: ");
    reveal_strlit("error: ");
    reveal_strlit("✓");
    reveal_strlit("⚠");
    reveal_strlit("warning:");
    reveal_strlit("error:");
    reveal_strlit(" ");
    assert("✓"@ + " "@ =~= "✓ "@);
    assert("⚠"@ + " "@ =~= "⚠ "@);
    assert("warning:"@ + " "@ =~= "warning: "@);
    assert("error:"@ + " "@ =~= "error: "@);
}

} // verus!
