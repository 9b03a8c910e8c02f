use lyneate::{TextEffect, Theme, ThemeChars, ThemeEffects, ThemeSizing};

#[test]
fn box_drawing_characters() {
    let chars = ThemeChars::box_drawing_chars();
    assert_eq!(
        chars,
        ThemeChars {
            underline: '─',
            underline_junction: '┬',
            underline_vertical: '│',
            side_vertical: '│',
            side_vertical_dotted: '╵',
            side_pointer: '▶',
            side_pointer_line: '─',
            side_junction: '├',
            bottom_curve: '╰',
            top_curve: '╭',
            msg_pointer: '─',
            msg_line: '─',
        }
    );
}

#[test]
fn ascii_characters() {
    let chars = ThemeChars::ascii();
    assert_eq!(
        chars,
        ThemeChars {
            underline: '-',
            underline_junction: '-',
            underline_vertical: '|',
            side_vertical: '|',
            side_vertical_dotted: ':',
            side_pointer: '>',
            side_pointer_line: '-',
            side_junction: '|',
            bottom_curve: '\\',
            top_curve: '/',
            msg_pointer: '-',
            msg_line: '-',
        }
    );
}

#[test]
fn default_characters_are_box_drawing() {
    assert_eq!(ThemeChars::default(), ThemeChars::box_drawing_chars());
}

#[test]
fn default_sizes() {
    assert_eq!(
        ThemeSizing::default(),
        ThemeSizing {
            pre_line_number_padding: 3,
            underline_spacing: 1,
            underline_arm_length: 2,
            side_arm_length: 2,
            side_pointer_length: 2,
        }
    );
}

#[test]
fn effects_none_leaves_everything_plain() {
    assert_eq!(
        ThemeEffects::none(),
        ThemeEffects { line_numbers: TextEffect::Plain, unhighlighted: TextEffect::Plain }
    );
}

#[test]
fn default_effects_dim_the_line_numbers() {
    assert_eq!(
        ThemeEffects::default(),
        ThemeEffects { line_numbers: TextEffect::Dimmed, unhighlighted: TextEffect::Plain }
    );
}

#[test]
fn default_theme_is_made_of_the_defaults() {
    assert_eq!(
        Theme::default(),
        Theme {
            chars: ThemeChars::default(),
            effects: ThemeEffects::default(),
            sizing: ThemeSizing::default(),
        }
    );
}
