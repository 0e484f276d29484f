//! The levels of the log and their coloured labels.

use vstd::prelude::*;
use crate::hash::decimal;

verus! {

/// The level of a log record.
#[derive(Clone, Copy, Debug, PartialEq, Eq, Structural)]
pub enum Level {
    Error,
    Warn,
    Info,
    Debug,
    Trace,
}

/// The foreground colours of the labels.
#[derive(Clone, Copy, Debug, PartialEq, Eq, Structural)]
pub enum Tint {
    BrightRed,
    Yellow,
    Green,
    BrightGreen,
    White,
}

impl Tint {
    /// The number of the colour in a terminal's escape sequence.
    pub open spec fn code(self) -> nat {
        match self {
            Tint::BrightRed => 91,
            Tint::Yellow => 33,
            Tint::Green => 32,
            Tint::BrightGreen => 92,
            Tint::White => 37,
        }
    }
}

/// A text in a foreground colour: the escape sequence that sets the colour,
/// the text, and the sequence that sets the default colour again.
pub open spec fn painted(text: Seq<char>, code: nat) -> Seq<char> {
    seq!['\x1b', '['] + decimal(code) + seq!['m'] + text + seq!['\x1b', '[', '3', '9', 'm']
}

/// Calls `owo_colors::OwoColorize::color` on the text and formats what it
/// gives. The contract states the escape sequences that the crate writes
/// before and after a text in an ANSI foreground colour.
#[verifier::external_body]
fn paint(text: &str, tint: Tint) -> (coloured: String)
    ensures
        coloured@ == painted(text@, tint.code()),
{
    let colour = match tint {
        Tint::BrightRed => owo_colors::AnsiColors::BrightRed,
        Tint::Yellow => owo_colors::AnsiColors::Yellow,
        Tint::Green => owo_colors::AnsiColors::Green,
        Tint::BrightGreen => owo_colors::AnsiColors::BrightGreen,
        Tint::White => owo_colors::AnsiColors::White,
    };
    owo_colors::OwoColorize::color(&text, colour).to_string()
}

/// The colour of a level's label.
pub open spec fn level_tint(level: Level) -> Tint {
    match level {
        Level::Error => Tint::BrightRed,
        Level::Warn => Tint::Yellow,
        Level::Info => Tint::Green,
        Level::Debug => Tint::BrightGreen,
        Level::Trace => Tint::White,
    }
}

/// The label of a level, five characters wide.
pub open spec fn level_label(level: Level) -> Seq<char> {
    match level {
        Level::Error => "ERROR"@,
        Level::Warn => " WARN"@,
        Level::Info => " INFO"@,
        Level::Debug => "DEBUG"@,
        Level::Trace => "TRACE"@,
    }
}

/// The coloured label of a level.
pub fn colorize_level(level: Level) -> (label: String)
    ensures
        label@ == painted(level_label(level), level_tint(level).code()),
{
    match level {
        Level::Error => paint("ERROR", Tint::BrightRed),
        Level::Warn => paint(" WARN", Tint::Yellow),
        Level::Info => paint(" INFO", Tint::Green),
        Level::Debug => paint("DEBUG", Tint::BrightGreen),
        Level::Trace => paint("TRACE", Tint::White),
    }
}

/// The logger of the library: it accepts every record.
#[derive(Clone, Copy, Debug)]
pub struct StageAltsLogger;

impl StageAltsLogger {
    /// A logger.
    pub fn new() -> (logger: StageAltsLogger) {
        StageAltsLogger
    }

    /// Tells whether a record of the level is logged: every one is.
    pub fn enabled(&self, level: Level) -> (enabled: bool)
        ensures
            enabled,
    {
        true
    }
}

/// The hash names that redirection needs come with the table of names that
/// the caller hands over, so there is nothing to fetch.
pub fn check_download_hashes() {
}

} // verus!
