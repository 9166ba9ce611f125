//! The logic of the Helix version control tool: the index file, commits,
//! trees, merging, sandboxes and the state of the terminal views, as verified
//! functions over plain values.

pub mod add_command;
pub mod add_select;
pub mod add_trace;
pub mod branch_command;
pub mod branch_tui;
pub mod checkout;
pub mod codec;
pub mod commit_command;
pub mod commit_graph;
pub mod config;
pub mod diff_command;
pub mod exchange;
pub mod handshake;
pub mod hash;
pub mod helix_index;
pub mod ignore;
pub mod keys;
pub mod lacking;
pub mod laws;
pub mod line_diff;
pub mod list_actions;
pub mod merge_command;
pub mod merge_tui;
pub mod object_file;
pub mod object_graph;
pub mod object_store;
pub mod order;
pub mod path;
pub mod pull;
pub mod pull_command;
pub mod push;
pub mod push_command;
pub mod reach;
pub mod refs;
pub mod repo_context;
pub mod rpc;
pub mod sandbox_command;
pub mod sandbox_tui;
pub mod status;
pub mod text;
pub mod text_map;
pub mod toml_text;

