//! What a run is asked to show: the algorithm, the text and the query.
use vstd::prelude::*;

verus! {

/// The algorithms that can be shown.
#[derive(Debug, PartialEq, Eq, Clone, Copy, Structural)]
pub enum Algorithm {
    SuffixArray,
    BWT,
    BiBWT,
}

/// The arguments of a run.
pub struct Cli {
    /// Algorithm to run.
    pub algorithm: Algorithm,
    /// String to run on.
    pub input: Option<String>,
    /// Query string for the indexes.
    pub query: Option<String>,
    /// Where to optionally save image files.
    pub save: Option<String>,
}

impl Cli {
    /// The text to run on: the input, or the default text where none is
    /// given, as bytes, with the sentinel `$` behind it.
    pub fn text(&self) -> (r: Vec<u8>)
        ensures
            r@ == match self.input {
                Some(input) => vstd::utf8::encode_utf8(input@),
                None => vstd::utf8::encode_utf8("GTCCCGATGTCATGTCAGGA"@),
            }.push(36u8),
    {
        let mut r = match &self.input {
            Some(input) => vstd::slice::slice_to_vec(input.as_str().as_bytes()),
            None => vstd::slice::slice_to_vec("GTCCCGATGTCATGTCAGGA".as_bytes()),
        };
        r.push(36u8);
        r
    }

    /// The query to search for: the one given, or `GTCC` where none is
    /// given, as bytes.
    pub fn pattern(&self) -> (r: Vec<u8>)
        ensures
            r@ == match self.query {
                Some(query) => vstd::utf8::encode_utf8(query@),
                None => vstd::utf8::encode_utf8("GTCC"@),
            },
    {
        match &self.query {
            Some(query) => vstd::slice::slice_to_vec(query.as_str().as_bytes()),
            None => vstd::slice::slice_to_vec("GTCC".as_bytes()),
        }
    }
}

} // verus!
