//! A viewport word-mining completion engine.
//!
//! Given a trigger point inside a text buffer, the engine locates the word
//! fragment already typed, aggregates the visible line ranges of every open
//! view (merging overlapping ranges per document), scans those ranges for
//! distinct word-like tokens of a minimum length, and packages each as a
//! completion suggestion carrying the exact buffer edit needed to apply it.
//! A separate staleness filter invalidates previously offered word
//! suggestions once the user has typed past the word with whitespace.
//!
//! Buffers are modeled as immutable sequences of characters, and every
//! character counts as one unit of word length: multi-codepoint grapheme
//! clusters are not grouped.  Every public operation is specified by a pure
//! function of its inputs, so two runs over identical snapshots yield
//! identical results.

pub mod chars;
pub mod range;
pub mod snapshot;
pub mod motion;
pub mod words;
pub mod collect;
pub mod scan;
pub mod complete;
