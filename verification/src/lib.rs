//! A terminal text expander: trigger matching, templates, form fields and
//! the trigger database, with their contracts proved by Verus.
pub mod text;
pub mod strmap;
pub mod yaml;
pub mod config;
pub mod matcher;
pub mod form;
pub mod fields;
pub mod cli;
pub mod records;
pub mod template;
pub mod buffer;
pub mod inject;
pub mod detect;

pub use config::Error as ConfigError;
