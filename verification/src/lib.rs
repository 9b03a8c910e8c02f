//! Lays out source code annotated with labelled highlights, single-line
//! underlines and multi-line brackets, on a grid of coloured characters
//! ready for a terminal.

pub mod board;
pub mod classify;
pub mod compose;
pub mod effects;
pub mod group;
pub mod law;
pub mod layout;
pub mod lines;
pub mod messages;
pub mod render;
pub mod report;
pub mod shape;
pub mod span;
pub mod text;
pub mod theme;
pub mod underline;
pub mod util;

pub use crate::board::{BoardCell, BoardRow, Color};
pub use crate::report::{Report, ReportError};
pub use crate::span::{CharSpan, MessageSpan, SpanOverlay};
pub use crate::theme::{TextEffect, Theme, ThemeChars, ThemeEffects, ThemeSizing};
pub use crate::util::byte_span_to_char_span;
