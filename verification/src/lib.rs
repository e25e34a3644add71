//! A verified reader and writer for the nested, indentation-structured text
//! format that a digital audio workstation uses to persist its projects.
//!
//! The `low_level` module holds the lossless document tree (objects, lines,
//! anonymous parameters and their scalar values) together with its parser and
//! serializer.  The `high_level` module adds tag-checked views (project,
//! track, item, media source) and the structural mutation algorithms that
//! edit a document without disturbing the parts they do not understand.

pub mod high_level;
pub mod low_level;
