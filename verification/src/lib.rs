pub mod text;
pub mod textmap;
pub mod config;
pub mod error;
pub mod version;
pub mod merge;
pub mod flakeref;
pub mod narinfo;
pub mod ext;
pub mod plan;
pub mod pattern;
pub mod flake_update;
pub mod hydra;
pub mod report;
pub mod orchestrate;
pub mod runner;
pub mod github;
pub mod source_pins;
pub mod transaction;
pub mod manifest;
pub mod commit;
