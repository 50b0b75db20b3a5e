//! Styling of warnings, after rustc's diagnostics. Off when stderr is not a
//! terminal or when `NO_COLOR` is set; `CLICOLOR_FORCE=1` forces it on.

use crate::text::text_eq;
use vstd::prelude::*;

verus! {

/// A foreground color.
#[derive(Debug, Clone, Copy, PartialEq, Eq, Structural)]
pub enum Color {
    Yellow,
    Cyan,
}

/// How a piece of text looks.
#[derive(Debug, Clone, Copy, PartialEq, Eq, Structural)]
pub struct Style {
    pub bold: bool,
    pub color: Option<Color>,
}

impl Style {
    /// The escape sequences that switch this style on.
    pub open spec fn on(self) -> Seq<char> {
        (if self.bold {
            "\x1b[1m"@
        } else {
            ""@
        }) + match self.color {
            Some(Color::Yellow) => "\x1b[33m"@,
            Some(Color::Cyan) => "\x1b[36m"@,
            None => ""@,
        }
    }

    /// The escape sequence that switches this style off.
    pub open spec fn off(self) -> Seq<char> {
        if self.bold || self.color is Some {
            "\x1b[0m"@
        } else {
            ""@
        }
    }

    /// `text` in this style.
    pub open spec fn styled(self, text: Seq<char>) -> Seq<char> {
        self.on() + text + self.off()
    }

    /// What `anstyle::Style::render` displays for a style built by
    /// `anstyle::Style::new`, `effects` and `fg_color`: the sequence for bold,
    /// then the one for the color, each only where the style has it.
    #[verifier::external_body]
    fn render(self) -> (out: String)
        ensures
            out@ == self.on(),
    {
        let effects = anstyle::Effects::new().set(anstyle::Effects::BOLD, self.bold);
        let color = self.color.map(|c| match c {
            Color::Yellow => anstyle::Color::Ansi(anstyle::AnsiColor::Yellow),
            Color::Cyan => anstyle::Color::Ansi(anstyle::AnsiColor::Cyan),
        });
        anstyle::Style::new().effects(effects).fg_color(color).render().to_string()
    }

    /// What `anstyle::Style::render_reset` displays for a style built by
    /// `anstyle::Style::new`, `effects` and `fg_color`: the reset sequence, or
    /// nothing for a plain style.
    #[verifier::external_body]
    fn render_reset(self) -> (out: String)
        ensures
            out@ == self.off(),
    {
        let effects = anstyle::Effects::new().set(anstyle::Effects::BOLD, self.bold);
        let color = self.color.map(|c| match c {
            Color::Yellow => anstyle::Color::Ansi(anstyle::AnsiColor::Yellow),
            Color::Cyan => anstyle::Color::Ansi(anstyle::AnsiColor::Cyan),
        });
        anstyle::Style::new().effects(effects).fg_color(color).render_reset().to_string()
    }

    /// Appends `text` in this style.
    pub fn push(self, out: &mut String, text: &str)
        ensures
            final(out)@ == old(out)@ + self.styled(text@),
    {
        let on = self.render();
        let off = self.render_reset();
        out.append(on.as_str());
        out.append(text);
        out.append(off.as_str());
        assert(out@ =~= old(out)@ + self.styled(text@));
    }
}

/// The styles of a diagnostic's parts: bold yellow `warning:`, cyan frame
/// (`-->`, `=`), bold cyan `note:` and `help:`.
#[derive(Debug, Clone, Copy)]
pub struct Palette {
    pub warning: Style,
    pub frame: Style,
    pub note: Style,
    pub help: Style,
}

/// No style at all.
pub open spec fn no_style() -> Style {
    Style { bold: false, color: None }
}

impl Palette {
    pub fn colored() -> (p: Palette)
        ensures
            p.warning == (Style { bold: true, color: Some(Color::Yellow) }),
            p.frame == (Style { bold: false, color: Some(Color::Cyan) }),
            p.note == (Style { bold: true, color: Some(Color::Cyan) }),
            p.help == (Style { bold: true, color: Some(Color::Cyan) }),
    {
        let cyan = Style { bold: false, color: Some(Color::Cyan) };
        let bold_cyan = Style { bold: true, color: Some(Color::Cyan) };
        Palette {
            warning: Style { bold: true, color: Some(Color::Yellow) },
            frame: cyan,
            note: bold_cyan,
            help: bold_cyan,
        }
    }

    pub fn plain() -> (p: Palette)
        ensures
            p.warning == no_style(),
            p.frame == no_style(),
            p.note == no_style(),
            p.help == no_style(),
    {
        let none = Style { bold: false, color: None };
        Palette { warning: none, frame: none, note: none, help: none }
    }
}

/// Whether color is on, given `CLICOLOR_FORCE`, whether `NO_COLOR` is set, and
/// whether stderr is a terminal.
pub open spec fn colors_on(force: Option<Seq<char>>, no_color: bool, terminal: bool) -> bool {
    (force is Some && force->0 != "0"@) || (!no_color && terminal)
}

/// `CLICOLOR_FORCE` (any value but `0`) wins. Otherwise `NO_COLOR` (any value)
/// disables. The default is whether stderr is a terminal.
pub fn should_color(force: &Option<String>, no_color: bool, terminal: bool) -> (r: bool)
    ensures
        r == colors_on(
            match *force {
                Some(v) => Some(v@),
                None => None,
            },
            no_color,
            terminal,
        ),
{
    if let Some(v) = force {
        if !text_eq(v.as_str(), "0") {
            return true;
        }
    }
    !no_color && terminal
}

/// The palette for a process with these settings.
pub fn palette(force: &Option<String>, no_color: bool, terminal: bool) -> (p: Palette)
    ensures
        ({
            let on = colors_on(
                match *force {
                    Some(v) => Some(v@),
                    None => None,
                },
                no_color,
                terminal,
            );
            &&& p.warning == if on {
                Style { bold: true, color: Some(Color::Yellow) }
            } else {
                no_style()
            }
            &&& p.frame == if on {
                Style { bold: false, color: Some(Color::Cyan) }
            } else {
                no_style()
            }
            &&& p.note == if on {
                Style { bold: true, color: Some(Color::Cyan) }
            } else {
                no_style()
            }
            &&& p.help == p.note
        }),
{
    if should_color(force, no_color, terminal) {
        Palette::colored()
    } else {
        Palette::plain()
    }
}

/// In a plain style, text stays as it is.
pub proof fn plain_style_adds_nothing(text: Seq<char>)
    ensures
        no_style().styled(text) == text,
{
    reveal_strlit("");
    assert(no_style().styled(text) =~= text);
}

} // verus!
