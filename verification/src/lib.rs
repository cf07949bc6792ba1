//! Branching conversations and the local memory that indexes them.
//!
//! Two programs share this library. One is a harness that grows a conversation as a
//! tree of content blocks, forks it, and renders it as markdown. The other is a memory
//! that chunks markdown, keeps it in an index, and hands pointers to it back to an
//! agent. What they compute stands here; what they read, send and store is handed in as
//! plain values.
//!
//! The transcript of a conversation is itself indexed, and that is only safe if a
//! branch that was dropped stays distinguishable from a conclusion. That this holds of
//! the renderer and the chunker together is proved in [`transcript_index`].
pub mod api;
pub mod chunk;
pub mod chunk_cover;
pub mod chunk_laws;
pub mod cli;
pub mod config;
pub mod config_laws;
pub mod daemon;
pub mod embed;
pub mod harness;
pub mod hash;
pub mod hook;
pub mod index;
pub mod index_laws;
pub mod json;
pub mod line_laws;
pub mod live_branch;
pub mod mcp;
pub mod note_laws;
pub mod number;
pub mod order;
pub mod path;
pub mod proto;
pub mod recall;
pub mod store;
pub mod text;
pub mod text_laws;
pub mod transcript;
pub mod transcript_index;
pub mod transcript_laws;
pub mod tree;
pub mod views;
