//! Conference track management: packs a collection of talks, each with a
//! duration in minutes, into conference tracks. A track is one day with a
//! three-hour morning session and a four-hour afternoon session; talks are
//! placed greedily, longest first, morning first (first-fit decreasing).

pub mod error;
pub mod parse;
pub mod schedule;
pub mod session;
pub mod talk;
pub mod text;
pub mod track;

pub use error::ScheduleError;
pub use schedule::{organize, sort_talks_desc};
pub use session::Session;
pub use talk::Talk;
pub use track::Track;
pub use text::render_schedule;
