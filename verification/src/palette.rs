//! Terminal colors.

use owo_colors::OwoColorize;
use vstd::prelude::*;
use vstd::string::*;

verus! {

// ---------------------------------------------------------------------------
// Escape sequences
// ---------------------------------------------------------------------------
/// `owo_colors::OwoColorize::bold`, written out. Claims the escape sequences
/// that it puts around the text.
#[verifier::external_body]
fn bold(text: &str) -> (out: String)
    ensures
        out@ == "\x1b[1m"@ + text@ + "\x1b[0m"@,
{
    text.bold().to_string()
}

/// `owo_colors::OwoColorize::dimmed`, written out. Claims the escape sequences
/// that it puts around the text.
#[verifier::external_body]
fn dimmed(text: &str) -> (out: String)
    ensures
        out@ == "\x1b[2m"@ + text@ + "\x1b[0m"@,
{
    text.dimmed().to_string()
}

/// `owo_colors::OwoColorize::red`, written out. Claims the escape sequences
/// that it puts around the text.
#[verifier::external_body]
fn red(text: &str) -> (out: String)
    ensures
        out@ == "\x1b[31m"@ + text@ + "\x1b[39m"@,
{
    text.red().to_string()
}

/// `owo_colors::OwoColorize::green`, written out. Claims the escape sequences
/// that it puts around the text.
#[verifier::external_body]
fn green(text: &str) -> (out: String)
    ensures
        out@ == "\x1b[32m"@ + text@ + "\x1b[39m"@,
{
    text.green().to_string()
}

/// `owo_colors::OwoColorize::yellow`, written out. Claims the escape sequences
/// that it puts around the text.
#[verifier::external_body]
fn yellow(text: &str) -> (out: String)
    ensures
        out@ == "\x1b[33m"@ + text@ + "\x1b[39m"@,
{
    text.yellow().to_string()
}

/// `owo_colors::OwoColorize::cyan`, written out. Claims the escape sequences
/// that it puts around the text.
#[verifier::external_body]
fn cyan(text: &str) -> (out: String)
    ensures
        out@ == "\x1b[36m"@ + text@ + "\x1b[39m"@,
{
    text.cyan().to_string()
}

/// `owo_colors::OwoColorize::white`, written out. Claims the escape sequences
/// that it puts around the text.
#[verifier::external_body]
fn white(text: &str) -> (out: String)
    ensures
        out@ == "\x1b[37m"@ + text@ + "\x1b[39m"@,
{
    text.white().to_string()
}

/// `owo_colors::OwoColorize::truecolor` with equal parts of red, green and
/// blue, written out. Claims the escape sequences that it puts around the
/// text.
#[verifier::external_body]
fn gray(text: &str, level: u8) -> (out: String)
    ensures
        out@ == "\x1b[38;2;"@ + crate::text::digits(level as nat) + ";"@ + crate::text::digits(
            level as nat,
        ) + ";"@ + crate::text::digits(level as nat) + "m"@ + text@ + "\x1b[39m"@,
{
    text.truecolor(level, level, level).to_string()
}

// ---------------------------------------------------------------------------
// Styles
// ---------------------------------------------------------------------------
/// How a text is painted. The first of two is put on first.
#[derive(Debug, Clone, Copy, PartialEq, Eq, Structural)]
pub enum Style {
    Bold,
    Dimmed,
    Red,
    Green,
    Yellow,
    Cyan,
    Gray,
    CyanThenBold,
    RedThenBold,
    BoldThenCyan,
    WhiteThenDimmed,
}

/// `text` in bold.
pub open spec fn in_bold(text: Seq<char>) -> Seq<char> {
    "\x1b[1m"@ + text + "\x1b[0m"@
}

/// `text` dimmed.
pub open spec fn in_dim(text: Seq<char>) -> Seq<char> {
    "\x1b[2m"@ + text + "\x1b[0m"@
}

/// `text` in the foreground color that `code` selects.
pub open spec fn in_color(code: Seq<char>, text: Seq<char>) -> Seq<char> {
    code + text + "\x1b[39m"@
}

/// The level of gray of empty blocks.
pub const GRAY: u8 = 110;

/// The sequence that selects that gray.
pub open spec fn gray_code() -> Seq<char> {
    "\x1b[38;2;"@ + crate::text::digits(GRAY as nat) + ";"@ + crate::text::digits(GRAY as nat)
        + ";"@ + crate::text::digits(GRAY as nat) + "m"@
}

impl Style {
    /// `text` in this style.
    pub open spec fn applied(self, text: Seq<char>) -> Seq<char> {
        match self {
            Style::Bold => in_bold(text),
            Style::Dimmed => in_dim(text),
            Style::Red => in_color("\x1b[31m"@, text),
            Style::Green => in_color("\x1b[32m"@, text),
            Style::Yellow => in_color("\x1b[33m"@, text),
            Style::Cyan => in_color("\x1b[36m"@, text),
            Style::Gray => in_color(gray_code(), text),
            Style::CyanThenBold => in_bold(in_color("\x1b[36m"@, text)),
            Style::RedThenBold => in_bold(in_color("\x1b[31m"@, text)),
            Style::BoldThenCyan => in_color("\x1b[36m"@, in_bold(text)),
            Style::WhiteThenDimmed => in_dim(in_color("\x1b[37m"@, text)),
        }
    }

    /// `text` in this style.
    pub fn apply(self, text: &str) -> (out: String)
        ensures
            out@ == self.applied(text@),
    {
        match self {
            Style::Bold => bold(text),
            Style::Dimmed => dimmed(text),
            Style::Red => red(text),
            Style::Green => green(text),
            Style::Yellow => yellow(text),
            Style::Cyan => cyan(text),
            Style::Gray => gray(text, GRAY),
            Style::CyanThenBold => bold(cyan(text).as_str()),
            Style::RedThenBold => bold(red(text).as_str()),
            Style::BoldThenCyan => cyan(bold(text).as_str()),
            Style::WhiteThenDimmed => dimmed(white(text).as_str()),
        }
    }
}

/// Color policy: when disabled, every text stays plain.
#[derive(Debug, Clone, Copy, PartialEq, Eq, Structural)]
pub struct Palette {
    pub enabled: bool,
}

impl Palette {
    /// `text` as this policy shows it.
    pub open spec fn painted(self, style: Style, text: Seq<char>) -> Seq<char> {
        if self.enabled {
            style.applied(text)
        } else {
            text
        }
    }

    pub fn paint(&self, style: Style, text: &str) -> (out: String)
        ensures
            out@ == self.painted(style, text@),
    {
        if self.enabled {
            style.apply(text)
        } else {
            text.to_owned()
        }
    }
}

/// Without color every text stays as it is; with it, the text stands between
/// the escape sequences of its style.
pub proof fn law_painted(text: Seq<char>)
    ensures
        forall|style: Style|
            #[trigger] (Palette { enabled: false }).painted(style, text) == text,
        ({
            let on = Palette { enabled: true };
            &&& on.painted(Style::Bold, text) == "\x1b[1m"@ + text + "\x1b[0m"@
            &&& on.painted(Style::Dimmed, text) == "\x1b[2m"@ + text + "\x1b[0m"@
            &&& on.painted(Style::Red, text) == "\x1b[31m"@ + text + "\x1b[39m"@
            &&& on.painted(Style::Green, text) == "\x1b[32m"@ + text + "\x1b[39m"@
            &&& on.painted(Style::Yellow, text) == "\x1b[33m"@ + text + "\x1b[39m"@
            &&& on.painted(Style::Cyan, text) == "\x1b[36m"@ + text + "\x1b[39m"@
            &&& on.painted(Style::Gray, text) == "\x1b[38;2;110;110;110m"@ + text + "\x1b[39m"@
            &&& on.painted(Style::CyanThenBold, text) == "\x1b[1m\x1b[36m"@ + text
                + "\x1b[39m\x1b[0m"@
            &&& on.painted(Style::RedThenBold, text) == "\x1b[1m\x1b[31m"@ + text
                + "\x1b[39m\x1b[0m"@
            &&& on.painted(Style::BoldThenCyan, text) == "\x1b[36m\x1b[1m"@ + text
                + "\x1b[0m\x1b[39m"@
            &&& on.painted(Style::WhiteThenDimmed, text) == "\x1b[2m\x1b[37m"@ + text
                + "\x1b[39m\x1b[0m"@
        }),
{
    reveal_strlit("\x1b[0m");
    reveal_strlit("\x1b[1m");
    reveal_strlit("\x1b[2m");
    reveal_strlit("\x1b[31m");
    reveal_strlit("\x1b[36m");
    reveal_strlit("\x1b[37m");
    reveal_strlit("\x1b[39m");
    reveal_strlit("\x1b[1m\x1b[36m");
    reveal_strlit("\x1b[1m\x1b[31m");
    reveal_strlit("\x1b[36m\x1b[1m");
    reveal_strlit("\x1b[2m\x1b[37m");
    reveal_strlit("\x1b[39m\x1b[0m");
    reveal_strlit("\x1b[0m\x1b[39m");
    assert("\x1b[1m\x1b[36m"@ =~= "\x1b[1m"@ + "\x1b[36m"@);
    assert("\x1b[1m\x1b[31m"@ =~= "\x1b[1m"@ + "\x1b[31m"@);
    assert("\x1b[36m\x1b[1m"@ =~= "\x1b[36m"@ + "\x1b[1m"@);
    assert("\x1b[2m\x1b[37m"@ =~= "\x1b[2m"@ + "\x1b[37m"@);
    assert("\x1b[39m\x1b[0m"@ =~= "\x1b[39m"@ + "\x1b[0m"@);
    assert("\x1b[0m\x1b[39m"@ =~= "\x1b[0m"@ + "\x1b[39m"@);
    lemma_gray_code();
    let on = Palette { enabled: true };
    assert(on.painted(Style::CyanThenBold, text) =~= "\x1b[1m\x1b[36m"@ + text
        + "\x1b[39m\x1b[0m"@);
    assert(on.painted(Style::RedThenBold, text) =~= "\x1b[1m\x1b[31m"@ + text
        + "\x1b[39m\x1b[0m"@);
    assert(on.painted(Style::BoldThenCyan, text) =~= "\x1b[36m\x1b[1m"@ + text
        + "\x1b[0m\x1b[39m"@);
    assert(on.painted(Style::WhiteThenDimmed, text) =~= "\x1b[2m\x1b[37m"@ + text
        + "\x1b[39m\x1b[0m"@);
}

proof fn lemma_gray_code()
    ensures
        gray_code() == "\x1b[38;2;110;110;110m"@,
{
    reveal_strlit("\x1b[38;2;");
    reveal_strlit(";");
    reveal_strlit("m");
    reveal_strlit("\x1b[38;2;110;110;110m");
    reveal_with_fuel(crate::text::digits, 4);
    assert(crate::text::digits(110) =~= seq!['1', '1', '0']);
    assert(gray_code() =~= "\x1b[38;2;110;110;110m"@);
}

} // verus!
