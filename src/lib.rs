pub mod cache;
pub mod entries;
pub mod key;
pub mod laws;
pub mod model;
