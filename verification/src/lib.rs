//! License headers for source files, and the license metadata of installed
//! packages: the rules of both, with their contracts.

pub mod argparse;
pub mod config;
pub mod dist;
pub mod extract;
pub mod formatter;
pub mod guarantees;
pub mod header;
pub mod line_lemmas;
pub mod matcher;
pub mod metadata;
pub mod number;
mod outside;
pub mod package;
pub mod refresh;
pub mod render_lemmas;
pub mod report;
pub mod replace_lemmas;
pub mod roundtrip;
pub mod settings;
pub mod site;
pub mod text;
pub mod version;
pub mod word_lemmas;
pub mod writer;
