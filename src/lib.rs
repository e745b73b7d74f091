//! Metro-line diagrams: a builder that records track operations as an
//! event log, and a renderer that replays such a log into rows of text.

pub mod escapes;
pub mod events;
pub mod metro;
pub mod paint;
pub mod render;

pub use events::{Event, EventView, RenderingSettings, TrackId};
pub use metro::{Metro, Track, DETACHED};
pub use render::color_index;
