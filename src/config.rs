use vstd::prelude::*;
use crate::color::Palette;

verus! {

#[derive(Debug, Clone)]
/// All settings of the chat viewer.
pub struct CompleteConfig {
    /// Connecting to the chat service.
    pub twitch: TwitchConfig,
    /// Internal functionality.
    pub terminal: TerminalConfig,
    /// How everything looks to the user.
    pub frontend: FrontendConfig,
}

#[derive(Debug, Clone)]
pub struct TwitchConfig {
    /// The user's own name on the service.
    pub username: String,
    /// The channel being watched.
    pub channel: String,
    /// The server to connect to.
    pub server: String,
}

#[derive(Debug, Clone)]
pub struct TerminalConfig {
    /// The delay between redraws, in milliseconds.
    pub tick_delay: u64,
    /// How many records the store keeps.
    pub maximum_messages: usize,
}

#[derive(Debug, Clone)]
pub struct FrontendConfig {
    /// The timestamp format, handed on as it is.
    pub date_format: String,
    /// The longest author name shown.
    pub maximum_username_length: u16,
    /// Horizontal padding around glyph overlays.
    pub margin: u16,
    /// The colour curve for author names.
    pub palette: Palette,
    /// How author names sit in their column: "left", "right" or "center".
    pub username_alignment: String,
    /// Whether the timestamp column is shown.
    pub date_shown: bool,
    /// Whether the panel title is shown.
    pub title_shown: bool,
}

} // verus!
