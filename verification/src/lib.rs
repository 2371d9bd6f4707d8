//! A small note-taking library: a timestamped note model with a markdown
//! document form, substring search, listing, and an aggregate text codec for
//! persisting a whole collection in one file.

pub mod codec;
pub mod collection;
pub mod note;
pub mod store;
pub mod text;
