//! A full-text index over one text, and pictures of how it works.
//!
//! The index is built on the suffix array of the text (`suffix_array`,
//! `induce`). Over it stand the FM-index (`bwt`), which counts and finds
//! the occurrences of a pattern by backward search over the last column of
//! the sorted rotations, and the bidirectional index (`bibwt`), which keeps
//! the index of the text and that of its reverse in step, so that a pattern
//! can grow at either end. What the two promise is proved from the order of
//! the rotations of the text (`rotation`, `mirror`, `counting`); `scan`
//! finds the same ranges by looking at the rotations themselves.
//!
//! Each of the three can be drawn, state by state (`viz`), in a grid of
//! cells (`grid`, `paint`) on a canvas (`canvas`). What a frame holds is
//! stated stroke by stroke, in the `frames` module of each of the three.
pub mod alg;
pub mod bibwt;
pub mod bwt;
pub mod canvas;
pub mod cli;
pub mod counting;
pub mod grid;
pub mod induce;
pub mod mirror;
pub mod paint;
pub mod playback;
pub mod rotation;
pub mod scan;
pub mod suffix_array;
pub mod tables;
pub mod text;
pub mod viz;
