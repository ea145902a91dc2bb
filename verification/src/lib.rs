//! docket: a register of claims across a documentation corpus.

pub mod text;
pub mod model;
pub mod markdown;
pub mod extract;
pub mod yaml;
pub mod assembly;
pub mod blast;
pub mod signals;
pub mod marker;
pub mod run;
pub mod checks;
pub mod contracts;
pub mod config;
pub mod gitignore;
pub mod absence;
pub mod corpus;
pub mod index;
pub mod located;
pub mod rename;
