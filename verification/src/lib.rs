//! The verified core of a Markdown vault.

pub mod asset_plan;
pub mod asset_refs;
pub mod assets;
pub mod attachments;
pub mod backlinks;
pub mod claims;
pub mod exclude;
pub mod executor;
pub mod files;
pub mod frontmatter;
pub mod frontmatter_edit;
pub mod graph;
pub mod hash;
pub mod index;
pub mod layers;
pub mod links;
pub mod markdown;
pub mod mutation;
pub mod note_ops;
pub mod note_text;
pub mod paths;
pub mod protocol;
pub mod requests;
pub mod rewrites;
pub mod scheduler;
pub mod slugs;
pub mod sync;
pub mod tables;
pub mod text;
pub mod types;
pub mod vault_error;
pub mod webdav;
pub mod write_types;
