//! Line-oriented text utilities: counting, bounded extraction, annotation
//! and collapsing of adjacent duplicate lines, each over a byte stream.
pub mod lines;
pub mod text;
pub mod wc;
pub mod uniq;
pub mod head;
pub mod cat;
pub mod decode;
