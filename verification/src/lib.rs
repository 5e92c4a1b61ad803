//! Byte strings that are conventionally UTF-8: substring search, splitting,
//! the quoted debug rendering, and the property checks that exercise them.
pub mod search;
pub mod split;
pub mod decode;
pub mod text;
pub mod render;
pub mod equality;
pub mod etna;
pub mod runner;
pub mod json;
