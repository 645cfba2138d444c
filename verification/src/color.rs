//! ANSI terminal colors for the command output.
//!
//! Whether color is used at all (`NO_COLOR`, terminal detection) is decided
//! by the caller; this module only knows the codes and how to wrap text.

use vstd::prelude::*;

use crate::text::{append, chars_of, string_of};

verus! {

/// ANSI colors.
#[derive(Debug, Clone, Copy, PartialEq, Eq, Structural)]
pub enum AnsiColor {
    Black,
    Red,
    Green,
    Yellow,
    Blue,
    Magenta,
    Cyan,
    White,
    /// Resets all styling.
    Reset,
}

/// The escape sequence that selects a color.
pub open spec fn code_s(c: AnsiColor) -> Seq<char> {
    match c {
        AnsiColor::Black => "\x1b[30m"@,
        AnsiColor::Red => "\x1b[31m"@,
        AnsiColor::Green => "\x1b[32m"@,
        AnsiColor::Yellow => "\x1b[33m"@,
        AnsiColor::Blue => "\x1b[34m"@,
        AnsiColor::Magenta => "\x1b[35m"@,
        AnsiColor::Cyan => "\x1b[36m"@,
        AnsiColor::White => "\x1b[37m"@,
        AnsiColor::Reset => "\x1b[0m"@,
    }
}

/// The lowercase name of a color, as written in the config file.
pub open spec fn name_s(c: AnsiColor) -> Seq<char> {
    match c {
        AnsiColor::Black => "black"@,
        AnsiColor::Red => "red"@,
        AnsiColor::Green => "green"@,
        AnsiColor::Yellow => "yellow"@,
        AnsiColor::Blue => "blue"@,
        AnsiColor::Magenta => "magenta"@,
        AnsiColor::Cyan => "cyan"@,
        AnsiColor::White => "white"@,
        AnsiColor::Reset => "reset"@,
    }
}

impl AnsiColor {
    /// The ANSI escape code for this color.
    pub fn code(self) -> (r: &'static str)
        ensures
            r@ == code_s(self),
    {
        match self {
            AnsiColor::Black => "\x1b[30m",
            AnsiColor::Red => "\x1b[31m",
            AnsiColor::Green => "\x1b[32m",
            AnsiColor::Yellow => "\x1b[33m",
            AnsiColor::Blue => "\x1b[34m",
            AnsiColor::Magenta => "\x1b[35m",
            AnsiColor::Cyan => "\x1b[36m",
            AnsiColor::White => "\x1b[37m",
            AnsiColor::Reset => "\x1b[0m",
        }
    }

    /// The human-readable name, as used in the legend and the config file.
    pub fn name(self) -> (r: &'static str)
        ensures
            r@ == name_s(self),
    {
        match self {
            AnsiColor::Black => "black",
            AnsiColor::Red => "red",
            AnsiColor::Green => "green",
            AnsiColor::Yellow => "yellow",
            AnsiColor::Blue => "blue",
            AnsiColor::Magenta => "magenta",
            AnsiColor::Cyan => "cyan",
            AnsiColor::White => "white",
            AnsiColor::Reset => "reset",
        }
    }
}

/// Colors of the parts of the hierarchical output.
#[derive(Debug, Clone, Copy, PartialEq, Eq, Structural)]
pub struct ColorConfig {
    /// Microservice root folder names.
    pub service_root: AnsiColor,
    /// Subfolder names within a service.
    pub subfolder: AnsiColor,
    /// File names.
    pub file: AnsiColor,
    /// Key names.
    pub key: AnsiColor,
    /// Values.
    pub value: AnsiColor,
    /// Added lines in diff previews (`+`).
    pub added: AnsiColor,
    /// Removed lines in diff previews (`-`).
    pub removed: AnsiColor,
}

/// The colors used when the config file names none.
pub open spec fn default_colors() -> ColorConfig {
    ColorConfig {
        service_root: AnsiColor::Magenta,
        subfolder: AnsiColor::Blue,
        file: AnsiColor::Cyan,
        key: AnsiColor::Green,
        value: AnsiColor::Yellow,
        added: AnsiColor::Green,
        removed: AnsiColor::Red,
    }
}

impl Default for ColorConfig {
    fn default() -> (r: Self)
        ensures
            r == default_colors(),
    {
        ColorConfig {
            service_root: AnsiColor::Magenta,
            subfolder: AnsiColor::Blue,
            file: AnsiColor::Cyan,
            key: AnsiColor::Green,
            value: AnsiColor::Yellow,
            added: AnsiColor::Green,
            removed: AnsiColor::Red,
        }
    }
}

/// `text` wrapped in `color`'s code and a reset when coloring is enabled and
/// the color is not `Reset`; otherwise `text` itself.
pub open spec fn colorize_s(text: Seq<char>, color: AnsiColor, enabled: bool) -> Seq<char> {
    if enabled && color != AnsiColor::Reset {
        code_s(color) + text + code_s(AnsiColor::Reset)
    } else {
        text
    }
}

/// Text together with the color it is shown in.
pub struct Colorizer<'a> {
    text: &'a str,
    color: AnsiColor,
    enabled: bool,
}

impl<'a> Colorizer<'a> {
    /// Pair `text` with `color`; nothing is colored unless `enabled`.
    pub fn new(text: &'a str, color: AnsiColor, enabled: bool) -> (r: Self)
        ensures
            r.spec_text() == text@,
            r.spec_color() == color,
            r.spec_enabled() == enabled,
    {
        Colorizer { text, color, enabled }
    }

    /// The text to show.
    pub closed spec fn spec_text(&self) -> Seq<char> {
        self.text@
    }

    /// The color to show it in.
    pub closed spec fn spec_color(&self) -> AnsiColor {
        self.color
    }

    /// Whether coloring is on.
    pub closed spec fn spec_enabled(&self) -> bool {
        self.enabled
    }

    /// The rendered text, with escape codes when coloring applies.
    pub fn to_string(&self) -> (r: String)
        ensures
            r@ == colorize_s(self.spec_text(), self.spec_color(), self.spec_enabled()),
    {
        string_of(&self.render())
    }

    /// The rendered text as characters.
    pub fn render(&self) -> (r: Vec<char>)
        ensures
            r@ == colorize_s(self.spec_text(), self.spec_color(), self.spec_enabled()),
    {
        if self.enabled && self.color != AnsiColor::Reset {
            let mut out = chars_of(self.color.code());
            append(&mut out, chars_of(self.text).as_slice());
            append(&mut out, chars_of(AnsiColor::Reset.code()).as_slice());
            out
        } else {
            chars_of(self.text)
        }
    }
}

/// Pair `text` with a color.
pub fn colorize<'a>(text: &'a str, color: AnsiColor, enabled: bool) -> (r: Colorizer<'a>)
    ensures
        r.spec_text() == text@,
        r.spec_color() == color,
        r.spec_enabled() == enabled,
{
    Colorizer::new(text, color, enabled)
}

/// `text` colored as `colorize` renders it, as characters.
pub fn paint(text: &Vec<char>, color: AnsiColor, enabled: bool) -> (r: Vec<char>)
    ensures
        r@ == colorize_s(text@, color, enabled),
{
    if enabled && color != AnsiColor::Reset {
        let mut out = chars_of(color.code());
        append(&mut out, text.as_slice());
        append(&mut out, chars_of(AnsiColor::Reset.code()).as_slice());
        out
    } else {
        let mut out: Vec<char> = Vec::new();
        append(&mut out, text.as_slice());
        out
    }
}


/// A `key = value` label with the key and the value in their colors.
pub open spec fn kv_label_s(key: Seq<char>, value: Seq<char>, key_color: AnsiColor, value_color: AnsiColor, enabled: bool) -> Seq<char> {
    colorize_s(key, key_color, enabled) + " = "@ + colorize_s(value, value_color, enabled)
}

/// A `key = value` label, the key and the value each in its color.
pub fn colored_kv_label(key: &str, value: &str, key_color: AnsiColor, value_color: AnsiColor, enabled: bool) -> (r: String)
    ensures
        r@ == kv_label_s(key@, value@, key_color, value_color, enabled),
{
    let mut out = paint(&chars_of(key), key_color, enabled);
    append(&mut out, chars_of(" = ").as_slice());
    append(&mut out, paint(&chars_of(value), value_color, enabled).as_slice());
    string_of(&out)
}

} // verus!
