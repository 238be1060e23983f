//! A codec for the BVH motion-capture animation format: a skeleton of nested
//! joints followed by a table of per-channel motion values.
//!
//! The document model is in `bvh`, `joint` and `channel`. Numbers are exact
//! decimals (`decimal`), so that what is read is what is written. `parse`
//! reads a document from text, `write` writes one chunk by chunk, and
//! `roundtrip` proves that reading back what was written gives the document
//! again, rounded to the digits written. `builder` and `literal` build
//! documents step by step.

pub mod builder;
pub mod bvh;
pub mod channel;
pub mod decimal;
pub mod digits;
pub mod joint;
pub mod lex;
pub mod literal;
pub mod parse;
pub mod roundtrip;
pub mod words;
pub mod write;

pub use builder::{BuildError, Builder, JointsBuilder, MotionBuilder};
pub use bvh::Bvh;
pub use channel::{Channel, ChannelType};
pub use decimal::Decimal;
pub use joint::{ChannelList, Joint, JointName};
pub use literal::BvhLiteralBuilder;
pub use parse::{from_bytes, Expected, LoadError};
pub use write::{IndentStyle, LineTerminator, WriteError, WriteOptions, WriteOptionsIterState};
