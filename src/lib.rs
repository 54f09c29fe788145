//! Editing of frame-based metadata tags: the frame model, the tag document
//! with its parser and writer, the cover-image codec, and the sessions of
//! open files.

pub mod bytes;
pub mod document;
pub mod frame;
pub mod image;
pub mod session;
