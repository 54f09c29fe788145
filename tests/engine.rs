use mr_tagger::document::TagDocument;
use mr_tagger::frame::{FormatError, Frame, TextEncoding, FRAME_ALBUM, FRAME_ARTIST, FRAME_COVER, FRAME_TITLE};
use mr_tagger::image::{decode_image, sniff, ImageError, ImageInfo, ImageKind};
use mr_tagger::session::{CloseAction, EngineError, FileInput, FileSession, SessionRegistry};

fn frame_bytes(t: u32, enc: u8, payload: &[u8]) -> Vec<u8> {
    let mut v = t.to_be_bytes().to_vec();
    v.extend_from_slice(&(payload.len() as u32).to_be_bytes());
    v.push(enc);
    v.extend_from_slice(payload);
    v
}

fn tag_file(frames: &[Vec<u8>], trailer: &[u8]) -> Vec<u8> {
    let body: Vec<u8> = frames.concat();
    let mut v = b"MTAG".to_vec();
    v.push(1);
    v.extend_from_slice(&(body.len() as u32).to_be_bytes());
    v.extend_from_slice(&body);
    v.extend_from_slice(trailer);
    v
}

fn png_blob(w: u32, h: u32) -> Vec<u8> {
    let mut v = vec![0x89, 0x50, 0x4E, 0x47, 0x0D, 0x0A, 0x1A, 0x0A, 0, 0, 0, 13];
    v.extend_from_slice(b"IHDR");
    v.extend_from_slice(&w.to_be_bytes());
    v.extend_from_slice(&h.to_be_bytes());
    v.extend_from_slice(&[8, 6, 0, 0, 0]);
    v
}

fn jpeg_blob() -> Vec<u8> {
    vec![
        0xFF, 0xD8, 0xFF, 0xE0, 0x00, 0x04, 0x4A, 0x46, 0xFF, 0xC0, 0x00, 0x0B, 0x08, 0x00, 0x20,
        0x00, 0x40, 0x01, 0x01, 0x11, 0x00,
    ]
}

fn sample_file() -> Vec<u8> {
    tag_file(
        &[
            frame_bytes(FRAME_TITLE, 2, b"Song"),
            frame_bytes(FRAME_ARTIST, 0, b"Band"),
        ],
        b"AUDIO-DATA",
    )
}

#[test]
fn parse_reads_frames_and_trailer() {
    let (doc, trailer) = TagDocument::parse(&sample_file()).unwrap();
    assert_eq!(doc.frames.len(), 2);
    assert_eq!(doc.frames[0].type_id, FRAME_TITLE);
    assert_eq!(doc.frames[0].payload, b"Song".to_vec());
    assert_eq!(doc.frames[0].text_encoding(), Some(TextEncoding::Utf8));
    assert_eq!(doc.frames[1].text_encoding(), Some(TextEncoding::Latin1));
    assert_eq!(trailer, b"AUDIO-DATA".to_vec());
}

#[test]
fn round_trip_serialize_then_parse() {
    let mut doc = TagDocument::new();
    doc.set(FRAME_TITLE, b"A".to_vec()).unwrap();
    doc.set(FRAME_ALBUM, b"Album".to_vec()).unwrap();
    let mut bytes = doc.serialize();
    bytes.extend_from_slice(b"tail");
    let (back, trailer) = TagDocument::parse(&bytes).unwrap();
    assert_eq!(back.frames.len(), 2);
    assert_eq!(back.frames[0].payload, b"A".to_vec());
    assert_eq!(back.frames[1].type_id, FRAME_ALBUM);
    assert_eq!(back.frames[1].payload, b"Album".to_vec());
    assert_eq!(trailer, b"tail".to_vec());
}

#[test]
fn serialize_exact_bytes() {
    let mut doc = TagDocument::new();
    doc.set(FRAME_TITLE, b"Hi".to_vec()).unwrap();
    assert_eq!(
        doc.serialize(),
        vec![b'M', b'T', b'A', b'G', 1, 0, 0, 0, 11, 0, 0, 0, 1, 0, 0, 0, 2, 2, b'H', b'i']
    );
}

#[test]
fn unknown_frame_preserved_byte_for_byte() {
    let file = tag_file(
        &[
            frame_bytes(99, 7, &[1, 2, 3, 0, 255]),
            frame_bytes(FRAME_TITLE, 9, b"odd encoding"),
        ],
        &[0xAA, 0xBB],
    );
    let session = FileSession::open("x.tag".to_string(), &file).unwrap();
    assert!(session.document.frames[0].is_opaque());
    assert!(session.document.frames[1].is_opaque());
    assert_eq!(session.file_bytes(), file);
}

#[test]
fn save_twice_gives_identical_bytes() {
    let mut reg = SessionRegistry::new();
    let h = reg.open("a.tag".to_string(), &sample_file()).unwrap();
    reg.set_field(h, FRAME_TITLE, b"New".to_vec()).unwrap();
    let first = reg.file_bytes(h).unwrap();
    reg.finish_save(h, None, true).unwrap();
    let second = reg.file_bytes(h).unwrap();
    reg.finish_save(h, None, true).unwrap();
    assert_eq!(first, second);
}

#[test]
fn dirty_tracking() {
    let mut reg = SessionRegistry::new();
    let h = reg.open("a.tag".to_string(), &sample_file()).unwrap();
    assert!(!reg.any_dirty());
    assert_eq!(reg.on_close_requested(), CloseAction::Close);
    reg.set_field(h, FRAME_ALBUM, b"LP".to_vec()).unwrap();
    assert!(reg.any_dirty());
    assert_eq!(reg.on_close_requested(), CloseAction::Confirm);
    reg.finish_save(h, None, false).unwrap();
    assert!(reg.any_dirty());
    reg.finish_save(h, Some("b.tag".to_string()), true).unwrap();
    assert!(!reg.any_dirty());
    assert_eq!(reg.path(h), Ok("b.tag".to_string()));
    reg.remove_image(h).unwrap();
    assert!(reg.any_dirty());
}

#[test]
fn image_absent_then_removed() {
    let mut reg = SessionRegistry::new();
    let h = reg.open("a.tag".to_string(), &sample_file()).unwrap();
    assert!(reg.get_image(h).unwrap().is_none());
    reg.set_image(h, &b"image/png".to_vec(), &png_blob(3, 4)).unwrap();
    let img = reg.get_image(h).unwrap().unwrap();
    assert_eq!(img.mime, b"image/png".to_vec());
    assert_eq!(img.data, png_blob(3, 4));
    assert!(reg.get_page(h).unwrap().has_image);
    reg.remove_image(h).unwrap();
    assert!(reg.get_image(h).unwrap().is_none());
    let bytes = reg.file_bytes(h).unwrap();
    let (doc, _) = TagDocument::parse(&bytes).unwrap();
    assert!(doc.frames.iter().all(|f| f.type_id != FRAME_COVER));
}

#[test]
fn truncated_tag_block_opens_nothing() {
    let mut file = b"MTAG".to_vec();
    file.push(1);
    file.extend_from_slice(&20u32.to_be_bytes());
    file.extend_from_slice(&[0u8; 10]);
    assert_eq!(TagDocument::parse(&file).unwrap_err(), FormatError::TruncatedFrame);
    let mut reg = SessionRegistry::new();
    assert_eq!(
        reg.open("t.tag".to_string(), &file),
        Err(EngineError::Format(FormatError::TruncatedFrame))
    );
    assert!(reg.handles().is_empty());
    assert_eq!(reg.close(0), Err(EngineError::NotFound));
}

#[test]
fn open_files_partial_failure() {
    let mut reg = SessionRegistry::new();
    let files = vec![
        FileInput { path: "good.tag".to_string(), contents: Some(sample_file()) },
        FileInput { path: "corrupt.tag".to_string(), contents: Some(b"NOPE-NOT-A-TAG".to_vec()) },
    ];
    let results = reg.open_files(&files);
    assert_eq!(results.len(), 2);
    assert!(results[0].is_ok());
    assert_eq!(results[1], Err(EngineError::Format(FormatError::CorruptHeader)));
    assert_eq!(reg.handles().len(), 1);
}

#[test]
fn open_files_unreadable_is_io_error() {
    let mut reg = SessionRegistry::new();
    let files = vec![FileInput { path: "gone.tag".to_string(), contents: None }];
    assert_eq!(reg.open_files(&files), vec![Err(EngineError::Io)]);
    assert!(reg.handles().is_empty());
}

#[test]
fn set_image_mime_mismatch_rejected() {
    let mut reg = SessionRegistry::new();
    let h = reg.open("a.tag".to_string(), &sample_file()).unwrap();
    reg.set_image(h, &b"image/png".to_vec(), &png_blob(1, 1)).unwrap();
    let mut blob = vec![0xFF, 0xD8, 0xFF];
    blob.extend_from_slice(&[0u8; 14]);
    assert_eq!(blob.len(), 17);
    assert_eq!(
        reg.set_image(h, &b"image/png".to_vec(), &blob),
        Err(EngineError::UnsupportedImageFormat)
    );
    let img = reg.get_image(h).unwrap().unwrap();
    assert_eq!(img.data, png_blob(1, 1));
}

#[test]
fn set_image_unknown_mime_rejected() {
    let mut doc = TagDocument::new();
    assert_eq!(
        mr_tagger::image::set_image(&mut doc, &b"image/gif".to_vec(), &jpeg_blob()),
        Err(ImageError::UnsupportedImageFormat)
    );
    assert!(doc.frames.is_empty());
}

#[test]
fn decode_png_dimensions() {
    assert_eq!(
        decode_image(&png_blob(640, 480)),
        Ok(ImageInfo { kind: ImageKind::Png, width: 640, height: 480 })
    );
}

#[test]
fn decode_jpeg_dimensions() {
    assert_eq!(
        decode_image(&jpeg_blob()),
        Ok(ImageInfo { kind: ImageKind::Jpeg, width: 64, height: 32 })
    );
}

#[test]
fn decode_image_errors() {
    assert_eq!(decode_image(&b"GIF89a".to_vec()), Err(ImageError::UnsupportedImageFormat));
    assert_eq!(decode_image(&vec![0xFF, 0xD8, 0xFF, 0xD9]), Err(ImageError::CorruptImage));
    assert_eq!(sniff(&vec![0xFF, 0xD8]), None);
}

#[test]
fn corrupt_header_and_frames() {
    assert_eq!(TagDocument::parse(&b"MTA".to_vec()).unwrap_err(), FormatError::CorruptHeader);
    let mut wrong_version = sample_file();
    wrong_version[4] = 2;
    assert_eq!(TagDocument::parse(&wrong_version).unwrap_err(), FormatError::CorruptHeader);
    let mut short = b"MTAG".to_vec();
    short.push(1);
    short.extend_from_slice(&4u32.to_be_bytes());
    short.extend_from_slice(&[0, 0, 0, 1]);
    assert_eq!(TagDocument::parse(&short).unwrap_err(), FormatError::CorruptFrame);
    let mut long_frame = frame_bytes(FRAME_TITLE, 2, b"abc");
    long_frame[7] = 50;
    let file = tag_file(&[long_frame], b"");
    assert_eq!(TagDocument::parse(&file).unwrap_err(), FormatError::TruncatedFrame);
}

#[test]
fn duplicates_first_wins_and_are_kept() {
    let file = tag_file(
        &[frame_bytes(FRAME_TITLE, 2, b"one"), frame_bytes(FRAME_TITLE, 2, b"two")],
        b"",
    );
    let (mut doc, _) = TagDocument::parse(&file).unwrap();
    assert_eq!(doc.get(FRAME_TITLE).unwrap().payload, b"one".to_vec());
    doc.set(FRAME_TITLE, b"new".to_vec()).unwrap();
    assert_eq!(doc.frames.len(), 2);
    assert_eq!(doc.frames[0].payload, b"new".to_vec());
    assert_eq!(doc.frames[1].payload, b"two".to_vec());
    doc.remove(FRAME_TITLE);
    assert!(doc.frames.is_empty());
    doc.remove(FRAME_TITLE);
    assert!(doc.get(FRAME_TITLE).is_none());
}

#[test]
fn handles_are_fresh_and_close_works() {
    let mut reg = SessionRegistry::new();
    let a = reg.open("a.tag".to_string(), &sample_file()).unwrap();
    let b = reg.open("b.tag".to_string(), &sample_file()).unwrap();
    assert_ne!(a, b);
    assert_eq!(reg.close(a), Ok(()));
    assert_eq!(reg.close(a), Err(EngineError::NotFound));
    assert_eq!(reg.set_field(a, FRAME_TITLE, b"x".to_vec()), Err(EngineError::NotFound));
    assert_eq!(reg.handles(), vec![b]);
    let c = reg.open("c.tag".to_string(), &sample_file()).unwrap();
    assert!(c != a && c != b);
    assert_eq!(reg.handles(), vec![b, c]);
    assert_eq!(reg.path(a), Err(EngineError::NotFound));
}

#[test]
fn handles_exhausted() {
    let mut reg = SessionRegistry::new();
    reg.next_handle = u64::MAX;
    assert_eq!(reg.open("a.tag".to_string(), &sample_file()), Err(EngineError::HandlesExhausted));
}

#[test]
fn page_lists_text_fields() {
    let file = tag_file(
        &[
            frame_bytes(FRAME_TITLE, 2, b"T"),
            frame_bytes(77, 0, b"opaque"),
            frame_bytes(FRAME_ARTIST, 2, b"A"),
        ],
        b"",
    );
    let mut reg = SessionRegistry::new();
    let h = reg.open("p.tag".to_string(), &file).unwrap();
    let page = reg.get_page(h).unwrap();
    let ids: Vec<u32> = page.fields.iter().map(|f: &Frame| f.type_id).collect();
    assert_eq!(ids, vec![FRAME_TITLE, FRAME_ARTIST]);
    assert!(!page.has_image);
}

#[test]
fn open_files_good_and_corrupt_leaves_registry_clean() {
    let mut reg = SessionRegistry::new();
    let files = vec![
        FileInput { path: "good.tag".to_string(), contents: Some(sample_file()) },
        FileInput { path: "corrupt.tag".to_string(), contents: Some(b"MTAG".to_vec()) },
    ];
    let results = reg.open_files(&files);
    let h = results[0].unwrap();
    assert_eq!(reg.path(h), Ok("good.tag".to_string()));
    assert_eq!(results[1], Err(EngineError::Format(FormatError::CorruptHeader)));
    assert!(!reg.any_dirty());
}

#[test]
fn all_saved_sessions_are_clean() {
    let mut reg = SessionRegistry::new();
    let a = reg.open("a.tag".to_string(), &sample_file()).unwrap();
    let b = reg.open("b.tag".to_string(), &sample_file()).unwrap();
    reg.set_field(a, FRAME_TITLE, b"x".to_vec()).unwrap();
    reg.set_field(b, FRAME_TITLE, b"y".to_vec()).unwrap();
    reg.finish_save(a, None, true).unwrap();
    assert!(reg.any_dirty());
    reg.finish_save(b, None, true).unwrap();
    assert!(!reg.any_dirty());
}
