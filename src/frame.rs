use vstd::prelude::*;
use crate::bytes::u32_bytes;

verus! {

/// Bytes before a frame's payload: four of type, four of payload length, one of encoding.
pub const FRAME_HEADER_LEN: usize = 9;

pub const FRAME_TITLE: u32 = 1;
pub const FRAME_ARTIST: u32 = 2;
pub const FRAME_ALBUM: u32 = 3;
pub const FRAME_TRACK: u32 = 4;
pub const FRAME_COVER: u32 = 5;

pub const ENCODING_LATIN1: u8 = 0;
pub const ENCODING_UTF16: u8 = 1;
pub const ENCODING_UTF8: u8 = 2;

/// Why a tag block could not be read.
#[derive(Clone, Copy, Debug, PartialEq, Eq, Structural)]
pub enum FormatError {
    CorruptHeader,
    CorruptFrame,
    TruncatedFrame,
}

/// The text encoding a frame declares.
#[derive(Clone, Copy, Debug, PartialEq, Eq, Structural)]
pub enum TextEncoding {
    Latin1,
    Utf16,
    Utf8,
}

/// A frame as a mathematical value.
pub struct FrameView {
    pub type_id: u32,
    pub encoding: u8,
    pub payload: Seq<u8>,
}

/// One typed, length-prefixed record of a tag block.
///
/// The encoding byte is kept as read, so a frame with an encoding this library
/// does not know is carried through unchanged.
#[derive(Debug)]
pub struct Frame {
    pub type_id: u32,
    pub encoding: u8,
    pub payload: Vec<u8>,
}

pub open spec fn is_known_type(t: u32) -> bool {
    1 <= t <= 5
}

pub open spec fn is_text_type(t: u32) -> bool {
    1 <= t <= 4
}

pub open spec fn encoding_of(b: u8) -> Option<TextEncoding> {
    if b == 0 {
        Some(TextEncoding::Latin1)
    } else if b == 1 {
        Some(TextEncoding::Utf16)
    } else if b == 2 {
        Some(TextEncoding::Utf8)
    } else {
        None
    }
}

/// A frame is opaque when its type is not in the registry, or it is a text
/// frame with an encoding this library does not know.
pub open spec fn is_opaque(f: FrameView) -> bool {
    !is_known_type(f.type_id) || (is_text_type(f.type_id) && encoding_of(f.encoding).is_none())
}

/// The bytes that stand for one frame.
pub open spec fn encode_frame_spec(f: FrameView) -> Seq<u8> {
    u32_bytes(f.type_id) + u32_bytes(f.payload.len() as u32) + seq![f.encoding] + f.payload
}

/// A frame can be written when its payload length fits the length field.
pub open spec fn frame_fits(f: FrameView) -> bool {
    f.payload.len() <= u32::MAX
}

impl View for Frame {
    type V = FrameView;

    open spec fn view(&self) -> FrameView {
        FrameView { type_id: self.type_id, encoding: self.encoding, payload: self.payload@ }
    }
}

impl Frame {
    pub fn new(type_id: u32, encoding: u8, payload: Vec<u8>) -> (r: Frame)
        ensures
            r@ == (FrameView { type_id, encoding, payload: payload@ }),
    {
        Frame { type_id, encoding, payload }
    }

    /// The text encoding the frame declares, if this library knows it.
    pub fn text_encoding(&self) -> (r: Option<TextEncoding>)
        ensures
            r == encoding_of(self.encoding),
    {
        if self.encoding == ENCODING_LATIN1 {
            Some(TextEncoding::Latin1)
        } else if self.encoding == ENCODING_UTF16 {
            Some(TextEncoding::Utf16)
        } else if self.encoding == ENCODING_UTF8 {
            Some(TextEncoding::Utf8)
        } else {
            None
        }
    }

    pub fn is_opaque(&self) -> (r: bool)
        ensures
            r == is_opaque(self@),
    {
        let known = 1 <= self.type_id && self.type_id <= 5;
        let text = 1 <= self.type_id && self.type_id <= 4;
        !known || (text && self.text_encoding().is_none())
    }

    pub fn copy(&self) -> (r: Frame)
        ensures
            r@ == self@,
    {
        Frame { type_id: self.type_id, encoding: self.encoding, payload: self.payload.clone() }
    }
}

} // verus!
