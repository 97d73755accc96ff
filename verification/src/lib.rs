//! Structured access to markdown documents: headings and sections, section
//! addresses, links and the link graph, frontmatter, and output formatting.

pub mod text;
pub mod markdown;
pub mod section;
pub mod links;
pub mod frontmatter;
pub mod output;
pub mod cli;
pub mod index;
pub mod manipulate;
pub mod commands;
pub mod filter;
pub mod engine;
