//! Directory listing: entry filtering and column layout for terminal display.

pub mod text;
pub mod entries;
pub mod layout;
pub mod listing;
pub mod terminal;
