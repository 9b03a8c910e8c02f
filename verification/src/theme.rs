//! Themes: the glyphs, the text effects and the sizes a report is drawn
//! with.

use vstd::prelude::*;

verus! {

/// The characters used for the different components of the report display.
#[derive(Debug, Clone, Copy, PartialEq, Eq)]
pub struct ThemeChars {
    pub underline: char,
    pub underline_junction: char,
    pub underline_vertical: char,
    pub side_vertical: char,
    pub side_vertical_dotted: char,
    pub side_pointer: char,
    pub side_pointer_line: char,
    pub side_junction: char,
    pub bottom_curve: char,
    pub top_curve: char,
    pub msg_pointer: char,
    pub msg_line: char,
}

/// A way of styling a piece of text before it is printed.
#[derive(Debug, Clone, Copy, PartialEq, Eq)]
pub enum TextEffect {
    /// The text as it is.
    Plain,
    /// The text dimmed, where the terminal takes colours.
    Dimmed,
}

/// The effects applied to different parts of the report display.
#[derive(Debug, Clone, Copy, PartialEq, Eq)]
pub struct ThemeEffects {
    pub line_numbers: TextEffect,
    pub unhighlighted: TextEffect,
}

/// The different lengths and paddings of the report display.
#[derive(Debug, Clone, Copy, PartialEq, Eq)]
pub struct ThemeSizing {
    pub pre_line_number_padding: usize,
    pub underline_spacing: usize,
    pub underline_arm_length: usize,
    pub side_arm_length: usize,
    pub side_pointer_length: usize,
}

/// A collection of the themes to be used when displaying a report.
#[derive(Debug, Clone, Copy, PartialEq, Eq)]
pub struct Theme {
    pub chars: ThemeChars,
    pub effects: ThemeEffects,
    pub sizing: ThemeSizing,
}

impl ThemeChars {
    /// The glyph set made of box-drawing characters.
    pub open spec fn spec_box_drawing_chars() -> Self {
        ThemeChars {
            underline: '─',
            underline_junction: '┬',
            underline_vertical: '│',
            side_vertical: '│',
            side_vertical_dotted: '╵',
            side_pointer: '▶',
            side_pointer_line: '─',
            side_junction: '├',
            bottom_curve: '╰',
            top_curve: '╭',
            msg_pointer: '─',
            msg_line: '─',
        }
    }

    /// The glyph set made of ASCII characters only.
    pub open spec fn spec_ascii() -> Self {
        ThemeChars {
            underline: '-',
            underline_junction: '-',
            underline_vertical: '|',
            side_vertical: '|',
            side_vertical_dotted: ':',
            side_pointer: '>',
            side_pointer_line: '-',
            side_junction: '|',
            bottom_curve: '\\',
            top_curve: '/',
            msg_pointer: '-',
            msg_line: '-',
        }
    }

    /// Whether every glyph of the set is an ASCII character.
    pub open spec fn is_ascii(self) -> bool {
        &&& self.underline <= '\u{7f}'
        &&& self.underline_junction <= '\u{7f}'
        &&& self.underline_vertical <= '\u{7f}'
        &&& self.side_vertical <= '\u{7f}'
        &&& self.side_vertical_dotted <= '\u{7f}'
        &&& self.side_pointer <= '\u{7f}'
        &&& self.side_pointer_line <= '\u{7f}'
        &&& self.side_junction <= '\u{7f}'
        &&& self.bottom_curve <= '\u{7f}'
        &&& self.top_curve <= '\u{7f}'
        &&& self.msg_pointer <= '\u{7f}'
        &&& self.msg_line <= '\u{7f}'
    }

    #[verifier::when_used_as_spec(spec_box_drawing_chars)]
    pub fn box_drawing_chars() -> (chars: Self)
        ensures
            chars == Self::spec_box_drawing_chars(),
    {
        Self {
            underline: '─',
            underline_junction: '┬',
            underline_vertical: '│',
            side_vertical: '│',
            side_vertical_dotted: '╵',
            side_pointer: '▶',
            side_pointer_line: '─',
            side_junction: '├',
            bottom_curve: '╰',
            top_curve: '╭',
            msg_pointer: '─',
            msg_line: '─',
        }
    }

    #[verifier::when_used_as_spec(spec_ascii)]
    pub fn ascii() -> (chars: Self)
        ensures
            chars == Self::spec_ascii(),
            chars.is_ascii(),
    {
        Self {
            underline: '-',
            underline_junction: '-',
            underline_vertical: '|',
            side_vertical: '|',
            side_vertical_dotted: ':',
            side_pointer: '>',
            side_pointer_line: '-',
            side_junction: '|',
            bottom_curve: '\\',
            top_curve: '/',
            msg_pointer: '-',
            msg_line: '-',
        }
    }
}

impl Default for ThemeChars {
    fn default() -> (chars: Self)
        ensures
            chars == Self::spec_box_drawing_chars(),
    {
        Self::box_drawing_chars()
    }
}

impl ThemeEffects {
    /// The effects that leave every part of the display as it is.
    pub fn none() -> (effects: Self)
        ensures
            effects.line_numbers == TextEffect::Plain,
            effects.unhighlighted == TextEffect::Plain,
    {
        Self { line_numbers: TextEffect::Plain, unhighlighted: TextEffect::Plain }
    }
}

impl Default for ThemeEffects {
    fn default() -> (effects: Self)
        ensures
            effects.line_numbers == TextEffect::Dimmed,
            effects.unhighlighted == TextEffect::Plain,
    {
        Self { line_numbers: TextEffect::Dimmed, unhighlighted: TextEffect::Plain }
    }
}

impl ThemeSizing {
    /// The sizes a report has unless told otherwise.
    pub open spec fn spec_default() -> Self {
        ThemeSizing {
            pre_line_number_padding: 3,
            underline_spacing: 1,
            underline_arm_length: 2,
            side_arm_length: 2,
            side_pointer_length: 2,
        }
    }
}

impl Default for ThemeSizing {
    fn default() -> (sizing: Self)
        ensures
            sizing == Self::spec_default(),
    {
        Self {
            pre_line_number_padding: 3,
            underline_spacing: 1,
            underline_arm_length: 2,
            side_arm_length: 2,
            side_pointer_length: 2,
        }
    }
}

impl Theme {
    /// The theme a report has unless told otherwise: box-drawing glyphs,
    /// dimmed line numbers and the default sizes.
    pub open spec fn spec_default() -> Self {
        Theme {
            chars: ThemeChars::spec_box_drawing_chars(),
            effects: ThemeEffects {
                line_numbers: TextEffect::Dimmed,
                unhighlighted: TextEffect::Plain,
            },
            sizing: ThemeSizing::spec_default(),
        }
    }
}

impl Default for Theme {
    fn default() -> (theme: Self)
        ensures
            theme == Self::spec_default(),
    {
        Self {
            chars: ThemeChars::default(),
            effects: ThemeEffects::default(),
            sizing: ThemeSizing::default(),
        }
    }
}

} // verus!
