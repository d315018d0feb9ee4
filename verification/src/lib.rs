//! A ticket tracker whose tickets are markdown files with a YAML front matter.

pub mod text;
pub mod types;
pub mod id;
pub mod render;
pub mod storage;
pub mod graph;
pub mod frontmatter;
pub mod body;
pub mod edit;
pub mod order;
pub mod store;
pub mod json;
pub mod display;
pub mod commands;
pub mod roundtrip;
pub mod update;
pub mod body_read;
