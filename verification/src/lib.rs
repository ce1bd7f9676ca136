//! Catalog logic for a project directory manager: projects live flat in one
//! directory and a catalog maps each project name to a category tag.

pub mod text;
pub mod catalog;
pub mod url;
pub mod config;
pub mod order;
pub mod yaml;
pub mod yaml_value;
pub mod sync;
pub mod commands;
pub mod render;
pub mod listing;
pub mod search;
pub mod paths;
