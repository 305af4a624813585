pub mod dashboard;
pub mod error;
pub mod model;
pub mod order;
pub mod prefs;
pub mod store;
pub mod text;
pub mod validate;
