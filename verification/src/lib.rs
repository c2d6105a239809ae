//! Game logic of a quiz server: questions read from text lines, answers
//! given by groups, scoring of a round, and bounded event buffers that
//! carry updates to the connected screens.

pub mod text;
pub mod question;
pub mod answer;
pub mod groups;
pub mod event_buffer;
pub mod server_data;
pub mod cors;
pub mod ranking;
pub mod laws;
pub mod reading_laws;
