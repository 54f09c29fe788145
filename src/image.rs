use vstd::prelude::*;
use crate::bytes::{be32_at, copy_range, push_all, read_be32};
use crate::document::{get_spec, has_type, remove_spec, set_spec, TagDocument};
use crate::frame::FRAME_COVER;

verus! {

/// The image formats this library recognises.
#[derive(Clone, Copy, Debug, PartialEq, Eq, Structural)]
pub enum ImageKind {
    Png,
    Jpeg,
}

#[derive(Clone, Copy, Debug, PartialEq, Eq, Structural)]
pub enum ImageError {
    /// The bytes are neither PNG nor JPEG, or they do not match the mime type given.
    UnsupportedImageFormat,
    /// The bytes start like a known format but its header cannot be read.
    CorruptImage,
    /// The tag block would outgrow its 32-bit length field.
    TagTooLarge,
}

/// What `decode_image` reads from an image's own header.
#[derive(Clone, Copy, Debug, PartialEq, Eq, Structural)]
pub struct ImageInfo {
    pub kind: ImageKind,
    pub width: u32,
    pub height: u32,
}

/// An embedded image as handed to a caller: its mime type and its bytes.
#[derive(Debug)]
pub struct ImageData {
    pub mime: Vec<u8>,
    pub data: Vec<u8>,
}

pub open spec fn png_magic() -> Seq<u8> {
    seq![0x89u8, 0x50u8, 0x4Eu8, 0x47u8, 0x0Du8, 0x0Au8, 0x1Au8, 0x0Au8]
}

pub open spec fn jpeg_magic() -> Seq<u8> {
    seq![0xFFu8, 0xD8u8, 0xFFu8]
}

/// "image/png"
pub open spec fn png_mime() -> Seq<u8> {
    seq![105u8, 109u8, 97u8, 103u8, 101u8, 47u8, 112u8, 110u8, 103u8]
}

/// "image/jpeg"
pub open spec fn jpeg_mime() -> Seq<u8> {
    seq![105u8, 109u8, 97u8, 103u8, 101u8, 47u8, 106u8, 112u8, 101u8, 103u8]
}

/// The format that an image's first bytes announce.
pub open spec fn sniff_spec(b: Seq<u8>) -> Option<ImageKind> {
    if b.len() >= 8 && b.take(8) == png_magic() {
        Some(ImageKind::Png)
    } else if b.len() >= 3 && b.take(3) == jpeg_magic() {
        Some(ImageKind::Jpeg)
    } else {
        None
    }
}

pub open spec fn mime_kind_spec(m: Seq<u8>) -> Option<ImageKind> {
    if m == png_mime() {
        Some(ImageKind::Png)
    } else if m == jpeg_mime() {
        Some(ImageKind::Jpeg)
    } else {
        None
    }
}

pub open spec fn mime_of(k: ImageKind) -> Seq<u8> {
    match k {
        ImageKind::Png => png_mime(),
        ImageKind::Jpeg => jpeg_mime(),
    }
}

pub open spec fn be16_at(b: Seq<u8>, at: int) -> int {
    (b[at] as int) * 256 + (b[at + 1] as int)
}

/// JPEG start-of-frame markers, the segments that carry the dimensions.
pub open spec fn is_sof(m: u8) -> bool {
    0xC0 <= m <= 0xCF && m != 0xC4 && m != 0xC8 && m != 0xCC
}

/// Walks JPEG segments from `pos` to the first start-of-frame segment and
/// reads (width, height) from it.
pub open spec fn jpeg_dims(b: Seq<u8>, pos: int) -> Option<(u32, u32)>
    decreases b.len() - pos,
{
    if pos < 0 || pos + 4 > b.len() || b[pos] != 0xFF {
        None
    } else if is_sof(b[pos + 1]) {
        if pos + 9 > b.len() {
            None
        } else {
            Some((be16_at(b, pos + 7) as u32, be16_at(b, pos + 5) as u32))
        }
    } else if be16_at(b, pos + 2) < 2 || pos + 2 + be16_at(b, pos + 2) > b.len() {
        None
    } else {
        jpeg_dims(b, pos + 2 + be16_at(b, pos + 2))
    }
}

/// "IHDR"
pub open spec fn ihdr() -> Seq<u8> {
    seq![73u8, 72u8, 68u8, 82u8]
}

pub open spec fn decode_image_spec(b: Seq<u8>) -> Result<ImageInfo, ImageError> {
    match sniff_spec(b) {
        None => Err(ImageError::UnsupportedImageFormat),
        Some(ImageKind::Png) => {
            if b.len() >= 24 && b.subrange(12, 16) == ihdr() {
                Ok(ImageInfo { kind: ImageKind::Png, width: be32_at(b, 16), height: be32_at(b, 20) })
            } else {
                Err(ImageError::CorruptImage)
            }
        },
        Some(ImageKind::Jpeg) => match jpeg_dims(b, 2) {
            Some(d) => Ok(ImageInfo { kind: ImageKind::Jpeg, width: d.0, height: d.1 }),
            None => Err(ImageError::CorruptImage),
        },
    }
}

/// The payload of a cover frame: the mime type, a zero byte, the image bytes.
pub open spec fn image_payload(mime: Seq<u8>, raw: Seq<u8>) -> Seq<u8> {
    mime + seq![0u8] + raw
}

pub open spec fn is_first_zero(p: Seq<u8>, i: int) -> bool {
    &&& 0 <= i < p.len()
    &&& p[i] == 0
    &&& forall|j: int| 0 <= j < i ==> #[trigger] p[j] != 0
}

/// A cover frame's payload read as (mime type, image bytes): split at the first
/// zero byte, or all image bytes where there is none.
pub open spec fn split_payload(p: Seq<u8>) -> (Seq<u8>, Seq<u8>) {
    if exists|i: int| is_first_zero(p, i) {
        let i = choose|i: int| is_first_zero(p, i);
        (p.take(i), p.skip(i + 1))
    } else {
        (Seq::empty(), p)
    }
}

/// The image a document holds, as (mime type, image bytes).
pub open spec fn image_of(fs: Seq<crate::frame::FrameView>) -> Option<(Seq<u8>, Seq<u8>)> {
    match get_spec(fs, FRAME_COVER) {
        Some(f) => Some(split_payload(f.payload)),
        None => None,
    }
}

fn bytes_equal(a: &Vec<u8>, b: &Vec<u8>) -> (r: bool)
    ensures
        r == (a@ == b@),
{
    if a.len() != b.len() {
        return false;
    }
    let mut i: usize = 0;
    while i < a.len()
        invariant
            i <= a.len() == b.len(),
            forall|j: int| 0 <= j < i ==> a@[j] == b@[j],
        decreases a.len() - i,
    {
        if a[i] != b[i] {
            return false;
        }
        i = i + 1;
    }
    assert(a@ =~= b@);
    true
}

/// The mime type's bytes for an image format.
pub fn mime_for(k: ImageKind) -> (r: Vec<u8>)
    ensures
        r@ == mime_of(k),
{
    match k {
        ImageKind::Png => {
            let r = vec![105u8, 109u8, 97u8, 103u8, 101u8, 47u8, 112u8, 110u8, 103u8];
            assert(r@ =~= png_mime());
            r
        },
        ImageKind::Jpeg => {
            let r = vec![105u8, 109u8, 97u8, 103u8, 101u8, 47u8, 106u8, 112u8, 101u8, 103u8];
            assert(r@ =~= jpeg_mime());
            r
        },
    }
}

/// The image format a mime type names, if it is one this library knows.
pub fn mime_kind(m: &Vec<u8>) -> (r: Option<ImageKind>)
    ensures
        r == mime_kind_spec(m@),
{
    if bytes_equal(m, &mime_for(ImageKind::Png)) {
        Some(ImageKind::Png)
    } else if bytes_equal(m, &mime_for(ImageKind::Jpeg)) {
        Some(ImageKind::Jpeg)
    } else {
        None
    }
}

/// The format that an image's first bytes announce.
pub fn sniff(b: &Vec<u8>) -> (r: Option<ImageKind>)
    ensures
        r == sniff_spec(b@),
{
    if b.len() >= 8 && b[0] == 0x89u8 && b[1] == 0x50u8 && b[2] == 0x4Eu8 && b[3] == 0x47u8 && b[4]
        == 0x0Du8 && b[5] == 0x0Au8 && b[6] == 0x1Au8 && b[7] == 0x0Au8 {
        assert(b@.take(8) =~= png_magic());
        Some(ImageKind::Png)
    } else if b.len() >= 3 && b[0] == 0xFFu8 && b[1] == 0xD8u8 && b[2] == 0xFFu8 {
        proof {
            if b@.len() >= 8 && b@.take(8) == png_magic() {
                assert(b@.take(8)[0] == b@[0]);
            }
        }
        assert(b@.take(3) =~= jpeg_magic());
        Some(ImageKind::Jpeg)
    } else {
        proof {
            if b@.len() >= 8 && b@.take(8) == png_magic() {
                assert(b@.take(8)[0] == b@[0] && b@.take(8)[1] == b@[1] && b@.take(8)[2] == b@[2]
                    && b@.take(8)[3] == b@[3] && b@.take(8)[4] == b@[4] && b@.take(8)[5] == b@[5]
                    && b@.take(8)[6] == b@[6] && b@.take(8)[7] == b@[7]);
            }
            if b@.len() >= 3 && b@.take(3) == jpeg_magic() {
                assert(b@.take(3)[0] == b@[0] && b@.take(3)[1] == b@[1] && b@.take(3)[2] == b@[2]);
            }
        }
        None
    }
}

fn read_be16(b: &Vec<u8>, at: usize) -> (r: u32)
    requires
        at + 2 <= b.len(),
    ensures
        r == be16_at(b@, at as int),
{
    (b[at] as u32) * 256 + (b[at + 1] as u32)
}

/// Finds the dimensions in a JPEG's start-of-frame segment.
fn jpeg_dimensions(b: &Vec<u8>) -> (r: Option<(u32, u32)>)
    ensures
        r == jpeg_dims(b@, 2),
{
    let mut pos: usize = 2;
    while pos <= b.len()
        invariant
            jpeg_dims(b@, 2) == jpeg_dims(b@, pos as int),
        decreases b.len() - pos,
    {
        if b.len() - pos < 4 || b[pos] != 0xFFu8 {
            return None;
        }
        let marker = b[pos + 1];
        if 0xC0u8 <= marker && marker <= 0xCFu8 && marker != 0xC4u8 && marker != 0xC8u8 && marker
            != 0xCCu8 {
            if b.len() - pos < 9 {
                return None;
            }
            let height = read_be16(b, pos + 5);
            let width = read_be16(b, pos + 7);
            return Some((width, height));
        }
        let seg = read_be16(b, pos + 2) as usize;
        if seg < 2 || seg > b.len() - pos - 2 {
            return None;
        }
        pos = pos + 2 + seg;
    }
    None
}

/// Reads an image's format and dimensions from its own header, without
/// decoding the picture.
pub fn decode_image(b: &Vec<u8>) -> (r: Result<ImageInfo, ImageError>)
    ensures
        r == decode_image_spec(b@),
{
    match sniff(b) {
        None => Err(ImageError::UnsupportedImageFormat),
        Some(ImageKind::Png) => {
            if b.len() >= 24 && b[12] == 73u8 && b[13] == 72u8 && b[14] == 68u8 && b[15] == 82u8 {
                assert(b@.subrange(12, 16) =~= ihdr());
                Ok(ImageInfo { kind: ImageKind::Png, width: read_be32(b, 16), height: read_be32(b, 20) })
            } else {
                proof {
                    if b@.len() >= 24 && b@.subrange(12, 16) == ihdr() {
                        assert(b@.subrange(12, 16)[0] == b@[12] && b@.subrange(12, 16)[1] == b@[13]
                            && b@.subrange(12, 16)[2] == b@[14] && b@.subrange(12, 16)[3] == b@[15]);
                    }
                }
                Err(ImageError::CorruptImage)
            }
        },
        Some(ImageKind::Jpeg) => match jpeg_dimensions(b) {
            Some(d) => Ok(ImageInfo { kind: ImageKind::Jpeg, width: d.0, height: d.1 }),
            None => Err(ImageError::CorruptImage),
        },
    }
}

/// The payload of a cover frame for an image of format `k`.
pub fn encode_image_payload(k: ImageKind, raw: &Vec<u8>) -> (r: Vec<u8>)
    ensures
        r@ == image_payload(mime_of(k), raw@),
{
    let mut r = mime_for(k);
    r.push(0u8);
    push_all(&mut r, raw);
    r
}

/// Splits a cover frame's payload into mime type and image bytes.
pub fn split_image_payload(p: &Vec<u8>) -> (r: ImageData)
    ensures
        (r.mime@, r.data@) == split_payload(p@),
{
    let mut i: usize = 0;
    while i < p.len()
        invariant
            i <= p.len(),
            forall|j: int| 0 <= j < i ==> #[trigger] p@[j] != 0,
        decreases p.len() - i,
    {
        if p[i] == 0u8 {
            proof {
                let k = choose|k: int| is_first_zero(p@, k);
                assert(is_first_zero(p@, i as int));
                if k < i {
                    assert(p@[k] != 0);
                } else if i < k {
                    assert(p@[i as int] != 0);
                }
            }
            return ImageData { mime: copy_range(p, 0, i), data: copy_range(p, i + 1, p.len()) };
        }
        i = i + 1;
    }
    proof {
        if exists|k: int| is_first_zero(p@, k) {
            let k = choose|k: int| is_first_zero(p@, k);
            assert(p@[k] != 0);
        }
        assert(p@.subrange(0, p@.len() as int) =~= p@);
    }
    ImageData { mime: Vec::new(), data: copy_range(p, 0, p.len()) }
}

/// The image a document holds; `None` where it has no cover frame.
pub fn get_image(doc: &TagDocument) -> (r: Option<ImageData>)
    ensures
        match r {
            Some(img) => image_of(doc@) == Some((img.mime@, img.data@)),
            None => image_of(doc@) is None,
        },
{
    match doc.get(FRAME_COVER) {
        Some(f) => Some(split_image_payload(&f.payload)),
        None => None,
    }
}

/// Embeds an image as the document's cover. The mime type must name PNG or
/// JPEG and the bytes must start as that format does; otherwise the document
/// is left as it was.
pub fn set_image(doc: &mut TagDocument, mime: &Vec<u8>, raw: &Vec<u8>) -> (r: Result<(), ImageError>)
    requires
        old(doc).wf(),
    ensures
        final(doc).wf(),
        r == Err::<(), ImageError>(ImageError::UnsupportedImageFormat) <==> (mime_kind_spec(mime@) is None
            || sniff_spec(raw@) != mime_kind_spec(mime@)),
        r is Ok ==> final(doc)@ == set_spec(old(doc)@, FRAME_COVER, image_payload(mime@, raw@)),
        r is Err ==> final(doc)@ == old(doc)@,
        r == Err::<(), ImageError>(ImageError::TagTooLarge) ==> !crate::document::frames_fit(
            set_spec(old(doc)@, FRAME_COVER, image_payload(mime@, raw@)),
        ),
        r != Err::<(), ImageError>(ImageError::CorruptImage),
{
    let k = match mime_kind(mime) {
        Some(k) => k,
        None => {
            return Err(ImageError::UnsupportedImageFormat);
        },
    };
    if sniff(raw) != Some(k) {
        return Err(ImageError::UnsupportedImageFormat);
    }
    let payload = encode_image_payload(k, raw);
    match doc.set(FRAME_COVER, payload) {
        Ok(()) => Ok(()),
        Err(_) => Err(ImageError::TagTooLarge),
    }
}

/// Takes the cover image out of a document; nothing happens where it has none.
pub fn remove_image(doc: &mut TagDocument)
    requires
        old(doc).wf(),
    ensures
        final(doc).wf(),
        final(doc)@ == remove_spec(old(doc)@, FRAME_COVER),
        image_of(final(doc)@) is None,
        !has_type(final(doc)@, FRAME_COVER),
{
    doc.remove(FRAME_COVER);
    proof {
        lemma_no_type_after_remove(old(doc)@, FRAME_COVER);
    }
}

/// After removing a type, no frame of that type is left.
pub proof fn lemma_no_type_after_remove(fs: Seq<crate::frame::FrameView>, t: u32)
    ensures
        !has_type(remove_spec(fs, t), t),
        get_spec(remove_spec(fs, t), t) is None,
{
    let out = remove_spec(fs, t);
    if has_type(out, t) {
        let i = choose|i: int| 0 <= i < out.len() && (#[trigger] out[i]).type_id == t;
        fs.lemma_filter_pred(|f: crate::frame::FrameView| f.type_id != t, i);
    }
}

/// A document whose image was set and then removed has no image, whatever it
/// held before.
pub proof fn lemma_image_absent_after_set_then_remove(
    fs: Seq<crate::frame::FrameView>,
    mime: Seq<u8>,
    raw: Seq<u8>,
)
    ensures
        image_of(remove_spec(set_spec(fs, FRAME_COVER, image_payload(mime, raw)), FRAME_COVER))
            is None,
        !has_type(remove_spec(set_spec(fs, FRAME_COVER, image_payload(mime, raw)), FRAME_COVER), FRAME_COVER),
{
    lemma_no_type_after_remove(set_spec(fs, FRAME_COVER, image_payload(mime, raw)), FRAME_COVER);
}

} // verus!
