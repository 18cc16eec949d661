//! Encoder and decoder for the netpbm image family: bitmaps, graymaps,
//! pixmaps and the extensible arbitrary-map container, in both the plain
//! (ASCII) and the raw (packed binary) wire encodings.
use vstd::prelude::*;

pub mod header;
pub mod numeral;
pub mod pam;
pub mod pbm;
pub mod pgm;
pub mod ppm;
pub mod sample;
pub mod seqs;
pub mod text;
pub mod tokens;

verus! {

/// A format that can render itself in the two netpbm wire encodings.
pub trait NetPBMSaver: Sized {
    /// The image's structural invariant: a rectangular sample grid that
    /// matches the stated dimensions, every sample in range.
    spec fn wf(&self) -> bool;

    /// The plain (ASCII) encoding, as characters.
    spec fn ascii_spec(&self, comment: Option<Seq<char>>) -> Seq<char>;

    /// The raw (binary) encoding, as bytes.
    spec fn raw_spec(&self) -> Seq<u8>;

    /// create a text representation of the image file. an optional comment in the header.
    fn to_ascii(&self, comment: Option<&str>) -> (r: String)
        requires
            self.wf(),
        ensures
            r@ == self.ascii_spec(match comment {
                Some(c) => Some(c@),
                None => None,
            }),
    ;

    /// create a binary representation of the image file.
    fn to_raw(&self) -> (r: Vec<u8>)
        requires
            self.wf(),
        ensures
            r@ == self.raw_spec(),
    ;
}

/// Encoding is deterministic: what `to_raw` and `to_ascii` return is fixed
/// by the image (and, for the plain form, the comment) alone, so encoding
/// the same image twice yields byte-identical output.
pub proof fn lemma_encode_idempotent<Class: NetPBMSaver>(
    img: Class,
    comment: Option<Seq<char>>,
    raw1: Seq<u8>,
    raw2: Seq<u8>,
    text1: Seq<char>,
    text2: Seq<char>,
)
    requires
        raw1 == img.raw_spec(),
        raw2 == img.raw_spec(),
        text1 == img.ascii_spec(comment),
        text2 == img.ascii_spec(comment),
    ensures
        raw1 == raw2,
        text1 == text2,
{
}

/// universal type for all netpbm files.
pub struct NetPBM<Class: NetPBMSaver> {
    /// The concrete per-format image the wrapper dispatches to.
    pub class: Class,
}

impl<Class: NetPBMSaver> NetPBM<Class> {
    /// The wrapped image's structural invariant.
    pub open spec fn wf(&self) -> bool {
        self.class.wf()
    }

    /// convert the image to its ASCII representation.
    ///
    /// - comment - optional value to add a comment in the header.
    ///
    /// returns - ASCII representation of the image.
    pub fn to_ascii(&self, comment: Option<&str>) -> (r: String)
        requires
            self.wf(),
        ensures
            r@ == self.class.ascii_spec(match comment {
                Some(c) => Some(c@),
                None => None,
            }),
    {
        self.class.to_ascii(comment)
    }

    /// convert the image to its binary representation.
    ///
    /// returns - binary representation of the image.
    pub fn to_raw(&self) -> (r: Vec<u8>)
        requires
            self.wf(),
        ensures
            r@ == self.class.raw_spec(),
    {
        self.class.to_raw()
    }
}

} // verus!
