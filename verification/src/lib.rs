pub mod entry;
pub mod listing;
pub mod mime;
pub mod search;
pub mod text;
