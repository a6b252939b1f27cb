//! Configuration: colours and sizes, the lists of allowed and of denied
//! names, and where the history is kept.

use vstd::prelude::*;
use crate::decimal::is_digit;
use crate::history::{History, Ledger};
use crate::text::{chars_of, same_text};

verus! {

/// An RGBA colour, one byte per channel.
#[derive(Debug, Clone, Copy, PartialEq, Eq, Structural)]
pub struct Color {
    pub r: u8,
    pub g: u8,
    pub b: u8,
    pub a: u8,
}

impl Default for Color {
    fn default() -> (color: Color)
        ensures
            color == (Color { r: 0, g: 0, b: 0, a: 0 }),
    {
        Color { r: 0, g: 0, b: 0, a: 0 }
    }
}

/// Whether `c` is a hexadecimal digit, of either case.
pub open spec fn is_hex(c: char) -> bool {
    is_digit(c) || 'a' <= c <= 'f' || 'A' <= c <= 'F'
}

/// The number that the hexadecimal digit `c` stands for.
pub open spec fn hex_value(c: char) -> int
    recommends
        is_hex(c),
{
    if is_digit(c) {
        c as int - '0' as int
    } else if 'a' <= c <= 'f' {
        c as int - 'a' as int + 10
    } else {
        c as int - 'A' as int + 10
    }
}

/// The byte that two hexadecimal digits stand for.
pub open spec fn hex_byte(high: char, low: char) -> u8
    recommends
        is_hex(high),
        is_hex(low),
{
    (16 * hex_value(high) + hex_value(low)) as u8
}

/// Whether `text` writes a colour: `#` and eight hexadecimal digits.
pub open spec fn is_color(text: Seq<char>) -> bool {
    &&& text.len() == 9
    &&& text[0] == '#'
    &&& forall|i: int| 1 <= i < 9 ==> is_hex(#[trigger] text[i])
}

/// The colour that `text` writes, as `#rrggbbaa`; any other text gives the
/// colour with all channels 0.
pub open spec fn color_of(text: Seq<char>) -> Color {
    if is_color(text) {
        Color {
            r: hex_byte(text[1], text[2]),
            g: hex_byte(text[3], text[4]),
            b: hex_byte(text[5], text[6]),
            a: hex_byte(text[7], text[8]),
        }
    } else {
        Color { r: 0, g: 0, b: 0, a: 0 }
    }
}

/// The value of the hexadecimal digit `c`, if it is one.
fn hex_digit(c: char) -> (value: Option<u8>)
    ensures
        match value {
            Some(v) => is_hex(c) && v == hex_value(c),
            None => !is_hex(c),
        },
{
    if '0' <= c && c <= '9' {
        Some((c as u32 - '0' as u32) as u8)
    } else if 'a' <= c && c <= 'f' {
        Some((c as u32 - 'a' as u32 + 10) as u8)
    } else if 'A' <= c && c <= 'F' {
        Some((c as u32 - 'A' as u32 + 10) as u8)
    } else {
        None
    }
}

/// The byte that `chars[at]` and `chars[at + 1]` stand for, if both are
/// hexadecimal digits.
fn hex_pair(chars: &Vec<char>, at: usize) -> (value: Option<u8>)
    requires
        at + 1 < chars.len(),
    ensures
        match value {
            Some(v) => is_hex(chars@[at as int]) && is_hex(chars@[at + 1]) && v == hex_byte(
                chars@[at as int],
                chars@[at + 1],
            ),
            None => !is_hex(chars@[at as int]) || !is_hex(chars@[at + 1]),
        },
{
    match (hex_digit(chars[at]), hex_digit(chars[at + 1])) {
        (Some(high), Some(low)) => Some(high * 16 + low),
        _ => None,
    }
}

impl Color {
    /// The colour that `value` writes.
    pub fn parse(value: &str) -> (color: Color)
        ensures
            color == color_of(value@),
    {
        let chars = chars_of(value);
        if chars.len() != 9 || chars[0] != '#' {
            return Color::default();
        }
        match (hex_pair(&chars, 1), hex_pair(&chars, 3), hex_pair(&chars, 5), hex_pair(&chars, 7)) {
            (Some(r), Some(g), Some(b), Some(a)) => {
                assert forall|i: int| 1 <= i < 9 implies is_hex(#[trigger] chars@[i]) by {
                    assert(i == 1 || i == 2 || i == 3 || i == 4 || i == 5 || i == 6 || i == 7 || i
                        == 8);
                }
                Color { r, g, b, a }
            },
            _ => Color::default(),
        }
    }
}

/// The height of the bar in pixels, where the configuration names none.
pub const DEFAULT_HEIGHT: u32 = 32;

/// The colour of the chosen command, where the configuration names none.
pub open spec fn default_highlight() -> Color {
    Color { r: 0xFF, g: 0x00, b: 0x00, a: 0xFF }
}

/// The colour of the text, where the configuration names none.
pub open spec fn default_foreground() -> Color {
    Color { r: 0xD0, g: 0xD0, b: 0xD0, a: 0xFF }
}

/// The colour behind the text, where the configuration names none.
pub open spec fn default_background() -> Color {
    Color { r: 0x10, g: 0x10, b: 0x10, a: 0xEE }
}

/// How the bar looks.
#[derive(Debug, Clone, Copy)]
pub struct Style {
    pub highlight_color: Option<Color>,
    pub foreground_color: Option<Color>,
    pub background_color: Option<Color>,
    pub height: u32,
}

/// What the user has configured. A list that is absent restricts nothing.
#[derive(Debug)]
pub struct Config {
    pub blacklist: Option<Vec<String>>,
    pub whitelist: Option<Vec<String>>,
    pub style: Option<Style>,
}

/// Whether `names` holds `name`.
fn holds(names: &Vec<String>, name: &str) -> (found: bool)
    ensures
        found == names.deep_view().contains(name@),
{
    let mut i: usize = 0;
    while i < names.len()
        invariant
            i <= names.len(),
            forall|k: int| 0 <= k < i ==> names.deep_view()[k] != name@,
        decreases names.len() - i,
    {
        if same_text(names[i].as_str(), name) {
            assert(names.deep_view()[i as int] == name@);
            return true;
        }
        i += 1;
    }
    false
}

impl Config {
    /// The policy on names: a name is let in where the whitelist, if there
    /// is one, holds it, and the blacklist, if there is one, does not.
    pub open spec fn permits(&self, name: Seq<char>) -> bool {
        &&& self.whitelist matches Some(allowed) ==> allowed.deep_view().contains(name)
        &&& self.blacklist matches Some(denied) ==> !denied.deep_view().contains(name)
    }

    /// Whether the policy lets `name` in.
    pub fn allows(&self, name: &str) -> (allowed: bool)
        ensures
            allowed == self.permits(name@),
    {
        let listed = match &self.whitelist {
            Some(names) => holds(names, name),
            None => true,
        };
        let denied = match &self.blacklist {
            Some(names) => holds(names, name),
            None => false,
        };
        listed && !denied
    }

    /// The height of the bar: the configured one, or the default.
    pub fn height(&self) -> (height: u32)
        ensures
            height == match self.style {
                Some(style) => style.height,
                None => DEFAULT_HEIGHT,
            },
    {
        match &self.style {
            Some(style) => style.height,
            None => DEFAULT_HEIGHT,
        }
    }

    /// The colour of the chosen command: the configured one, or the default.
    pub fn highlight(&self) -> (color: Color)
        ensures
            color == match self.style {
                Some(Style { highlight_color: Some(configured), .. }) => configured,
                _ => default_highlight(),
            },
    {
        match &self.style {
            Some(Style { highlight_color: Some(configured), .. }) => *configured,
            _ => Color { r: 0xFF, g: 0x00, b: 0x00, a: 0xFF },
        }
    }

    /// The colour of the text: the configured one, or the default.
    pub fn foreground(&self) -> (color: Color)
        ensures
            color == match self.style {
                Some(Style { foreground_color: Some(configured), .. }) => configured,
                _ => default_foreground(),
            },
    {
        match &self.style {
            Some(Style { foreground_color: Some(configured), .. }) => *configured,
            _ => Color { r: 0xD0, g: 0xD0, b: 0xD0, a: 0xFF },
        }
    }

    /// The colour behind the text: the configured one, or the default.
    pub fn background(&self) -> (color: Color)
        ensures
            color == match self.style {
                Some(Style { background_color: Some(configured), .. }) => configured,
                _ => default_background(),
            },
    {
        match &self.style {
            Some(Style { background_color: Some(configured), .. }) => *configured,
            _ => Color { r: 0x10, g: 0x10, b: 0x10, a: 0xEE },
        }
    }
}

/// What was given on the command line: where the configuration is read
/// from, and where the history is kept.
#[derive(Debug)]
pub struct Args {
    pub config: Option<String>,
    pub history: Option<String>,
}

/// A text to be written to a file.
pub struct Store {
    pub path: String,
    pub text: String,
}

/// The configuration, the history, and where the history is kept.
pub struct AppConfig {
    pub config: Config,
    pub history: History,
    pub args: Args,
}

impl AppConfig {
    /// Counts one more launch of `binary`, and says what is to be written
    /// where, so that the history is kept: its whole text, to the file of
    /// the history. A weight that cannot grow any more stays as it is.
    pub fn increment_and_store_history(&mut self, binary: String) -> (store: Option<Store>)
        ensures
            final(self).config == old(self).config,
            final(self).args == old(self).args,
            final(self).history@ == if old(self).history@.weight(binary@) < u32::MAX {
                old(self).history@.bump(binary@)
            } else {
                old(self).history@
            },
            match old(self).args.history {
                Some(path) => store matches Some(written) && written.path@ == path@
                    && written.text@ == final(self).history@.text(),
                None => store is None,
            },
    {
        if self.history.get_weight(&binary) < u32::MAX {
            self.history.increment(binary);
        }
        self.store_history()
    }

    /// What is to be written where, so that the history is kept.
    fn store_history(&self) -> (store: Option<Store>)
        ensures
            match self.args.history {
                Some(path) => store matches Some(written) && written.path@ == path@
                    && written.text@ == self.history@.text(),
                None => store is None,
            },
    {
        match &self.args.history {
            Some(path) => Some(Store { path: path.clone(), text: self.history.to_text() }),
            None => None,
        }
    }
}

} // verus!
