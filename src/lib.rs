pub mod color;
pub mod config;
pub mod controller;
pub mod data;
pub mod layout;
pub mod overlay;
pub mod store;
pub mod text;
