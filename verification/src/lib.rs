//! Editor runtime primitives: text positions, patches, decorations, diffs,
//! soft wrapping, path relations, file trees and watcher normalization.

pub mod textview;
pub mod strutil;
pub mod textpatch;
pub mod pathrel;
pub mod filetree;
pub mod decor;
pub mod watchnorm;
pub mod wrap;
pub mod diffcore;
pub mod editor;
pub mod search;
pub mod grammar_check;
pub mod syntax;
pub mod viewport;
pub mod history;
pub mod session;
