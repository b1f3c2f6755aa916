//! Query GitHub repository wikis through Google Code Wiki: the request and
//! response framing of its `batchexecute` RPC, reading a wiki out of the RPC
//! payload, and rendering it as markdown, an outline, or a tree of files.
use vstd::prelude::*;

pub mod text;
pub mod encoding;
pub mod json;
pub mod boq;
pub mod wiki;
pub mod links;
pub mod render;
pub mod filename;
pub mod split;
pub mod output;
pub mod client;
pub mod cli;
pub mod commands;
