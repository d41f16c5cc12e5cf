//! Core of a small static-site generator: a streaming normalizer that
//! unwraps paragraphs containing exactly one image, and a line-based
//! splitter that separates YAML front matter from a Markdown body.
pub mod events;
pub mod inline_imgs;
pub mod laws;
pub mod yaml;
