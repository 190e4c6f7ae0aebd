//! Stroke-data editing engine for a CJK font-authoring tool.
//!
//! The engine keeps, for each character, an ordered list of strokes, each
//! stroke an ordered, non-empty list of 2D integer points.  It offers the
//! mutation operations an interactive editor needs (reorder strokes, splice
//! multi-stroke blocks, insert/delete/replace points, add strokes and
//! characters) together with a deterministic binary serialization used to
//! persist and exchange the database.  Every operation either succeeds or
//! reports a typed error and leaves the data exactly as it was.

pub mod codec;
pub mod db;
pub mod edit;
pub mod errors;
pub mod export;
pub mod point;
pub mod state;
pub mod strokes;
