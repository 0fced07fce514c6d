//! Build-time logic of a reveal.js deck builder for Aquascope lectures.

pub mod text;
pub mod lines;
pub mod markers;
pub mod highlight;
pub mod spans;
pub mod origins;
pub mod attributes;
pub mod deck;
pub mod lint;
pub mod run;
pub mod serve;
pub mod frontmatter;
pub mod page;
