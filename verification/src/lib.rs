//! Groups a flat list of tasks by area and project and renders the groups as
//! a markdown report for a team chat.

pub mod emoji;
pub mod grouping;
pub mod listing;
pub mod names;
pub mod render;
pub mod reporter;
pub mod text;
pub mod things;
