use vstd::prelude::*;
use crate::document::{
    frames_fit, has_type, lemma_parse_then_serialize, lemma_round_trip, parse_spec, remove_spec,
    serialize_spec, set_spec, TagDocument, TagTooLarge,
};
use crate::frame::{is_text_type, Frame, FrameView, FormatError, FRAME_COVER};
use crate::image::{
    get_image, image_of, image_payload, mime_kind_spec, remove_image, set_image, sniff_spec,
    ImageData, ImageError,
};
use crate::bytes::push_all;

verus! {

/// A file session as a mathematical value.
pub struct SessionView {
    pub path: Seq<char>,
    pub document: Seq<FrameView>,
    pub trailer: Seq<u8>,
    pub dirty: bool,
}

/// The bytes a session writes to disk: its tag block, then its trailer.
pub open spec fn file_image(s: SessionView) -> Seq<u8> {
    serialize_spec(s.document) + s.trailer
}

/// A session after an attempt to save it: clean, and under the new path where
/// one was given, if the bytes were written; unchanged otherwise.
pub open spec fn after_save(s: SessionView, new_path: Option<Seq<char>>, written: bool) -> SessionView {
    if written {
        SessionView {
            path: match new_path {
                Some(p) => p,
                None => s.path,
            },
            dirty: false,
            ..s
        }
    } else {
        s
    }
}

/// One open file: its path, its parsed tag block, the bytes after the tag
/// block, and whether it has changes not yet saved.
#[derive(Debug)]
pub struct FileSession {
    pub path: String,
    pub document: TagDocument,
    pub trailer: Vec<u8>,
    pub dirty: bool,
}

impl View for FileSession {
    type V = SessionView;

    open spec fn view(&self) -> SessionView {
        SessionView {
            path: self.path@,
            document: self.document@,
            trailer: self.trailer@,
            dirty: self.dirty,
        }
    }
}

impl FileSession {
    pub open spec fn wf(&self) -> bool {
        self.document.wf()
    }

    /// Opens a session on a file's bytes, read from `path`.
    pub fn open(path: String, bytes: &Vec<u8>) -> (r: Result<FileSession, FormatError>)
        ensures
            match r {
                Ok(s) => {
                    &&& s.wf()
                    &&& parse_spec(bytes@) == Ok::<(Seq<FrameView>, Seq<u8>), FormatError>(
                        (s.document@, s.trailer@),
                    )
                    &&& s.path@ == path@
                    &&& !s.dirty
                },
                Err(e) => parse_spec(bytes@) == Err::<(Seq<FrameView>, Seq<u8>), FormatError>(e),
            },
    {
        match TagDocument::parse(bytes) {
            Ok((document, trailer)) => Ok(FileSession { path, document, trailer, dirty: false }),
            Err(e) => Err(e),
        }
    }

    /// The bytes that saving writes: the tag block, then the trailer as read.
    pub fn file_bytes(&self) -> (r: Vec<u8>)
        requires
            self.wf(),
        ensures
            r@ == file_image(self@),
    {
        let mut r = self.document.serialize();
        push_all(&mut r, &self.trailer);
        r
    }

    /// Records the outcome of writing `file_bytes` to disk.
    pub fn finish_save(&mut self, new_path: Option<String>, written: bool)
        ensures
            final(self)@ == after_save(
                old(self)@,
                match new_path {
                    Some(p) => Some(p@),
                    None => None,
                },
                written,
            ),
            final(self).wf() == old(self).wf(),
    {
        if written {
            match new_path {
                Some(p) => {
                    self.path = p;
                },
                None => {},
            }
            self.dirty = false;
        }
    }

    /// Sets a text field; the session becomes dirty.
    pub fn set_field(&mut self, t: u32, payload: Vec<u8>) -> (r: Result<(), TagTooLarge>)
        requires
            old(self).wf(),
        ensures
            final(self).wf(),
            r is Ok <==> frames_fit(set_spec(old(self)@.document, t, payload@)),
            r is Ok ==> final(self)@ == (SessionView {
                document: set_spec(old(self)@.document, t, payload@),
                dirty: true,
                ..old(self)@
            }),
            r is Err ==> final(self)@ == old(self)@,
    {
        let r = self.document.set(t, payload);
        if r.is_ok() {
            self.dirty = true;
        }
        r
    }

    /// Embeds a cover image; the session becomes dirty. Bytes that are not the
    /// format the mime type names are refused and change nothing.
    pub fn set_image(&mut self, mime: &Vec<u8>, raw: &Vec<u8>) -> (r: Result<(), ImageError>)
        requires
            old(self).wf(),
        ensures
            final(self).wf(),
            r == Err::<(), ImageError>(ImageError::UnsupportedImageFormat) <==> (mime_kind_spec(mime@) is None
                || sniff_spec(raw@) != mime_kind_spec(mime@)),
            r == Err::<(), ImageError>(ImageError::TagTooLarge) ==> !frames_fit(
                set_spec(old(self)@.document, FRAME_COVER, image_payload(mime@, raw@)),
            ),
            r != Err::<(), ImageError>(ImageError::CorruptImage),
            r is Ok ==> final(self)@ == (SessionView {
                document: set_spec(old(self)@.document, FRAME_COVER, image_payload(mime@, raw@)),
                dirty: true,
                ..old(self)@
            }),
            r is Err ==> final(self)@ == old(self)@,
    {
        let r = set_image(&mut self.document, mime, raw);
        if r.is_ok() {
            self.dirty = true;
        }
        r
    }

    /// Takes out the cover image; the session becomes dirty.
    pub fn remove_image(&mut self)
        requires
            old(self).wf(),
        ensures
            final(self).wf(),
            final(self)@ == (SessionView {
                document: remove_spec(old(self)@.document, FRAME_COVER),
                dirty: true,
                ..old(self)@
            }),
            image_of(final(self)@.document) is None,
    {
        remove_image(&mut self.document);
        self.dirty = true;
    }

    pub fn get_image(&self) -> (r: Option<ImageData>)
        ensures
            match r {
                Some(img) => image_of(self@.document) == Some((img.mime@, img.data@)),
                None => image_of(self@.document) is None,
            },
    {
        get_image(&self.document)
    }
}

/// A session's file, saved and opened again, holds the same frames and trailer.
pub proof fn lemma_saved_file_reopens(s: SessionView)
    requires
        frames_fit(s.document),
    ensures
        parse_spec(file_image(s)) == Ok::<(Seq<FrameView>, Seq<u8>), FormatError>(
            (s.document, s.trailer),
        ),
{
    lemma_round_trip(s.document, s.trailer);
}

/// Saving twice with no change between writes the same bytes both times.
pub proof fn lemma_save_idempotent(s: SessionView, p1: Option<Seq<char>>, p2: Option<Seq<char>>, w1: bool)
    ensures
        file_image(after_save(s, p1, w1)) == file_image(s),
        file_image(after_save(after_save(s, p1, w1), p2, true)) == file_image(after_save(s, p1, w1)),
{
}

/// A save that wrote its bytes leaves the session clean; one that failed leaves
/// it exactly as it was, dirty flag included.
pub proof fn lemma_dirty_after_save(s: SessionView, p: Option<Seq<char>>)
    ensures
        !after_save(s, p, true).dirty,
        after_save(s, p, false) == s,
        after_save(s, p, true).document == s.document,
        after_save(s, p, true).trailer == s.trailer,
{
}

/// The registry reports unsaved changes exactly when some session is dirty, so
/// once every session is clean it reports none.
pub proof fn lemma_all_clean(m: Map<u64, SessionView>)
    ensures
        !any_dirty_spec(m) <==> forall|h: u64| m.contains_key(h) ==> !(#[trigger] m[h]).dirty,
{
}

/// Saving one session into a registry whose other sessions are clean leaves
/// every session clean, and nothing unsaved is reported.
pub proof fn lemma_saved_session_keeps_registry_clean(
    m: Map<u64, SessionView>,
    h: u64,
    s: SessionView,
    p: Option<Seq<char>>,
)
    requires
        forall|k: u64| m.contains_key(k) && k != h ==> !(#[trigger] m[k]).dirty,
    ensures
        forall|k: u64| #[trigger] m.insert(h, after_save(s, p, true)).contains_key(k) ==> !m.insert(
            h,
            after_save(s, p, true),
        )[k].dirty,
        !any_dirty_spec(m.insert(h, after_save(s, p, true))),
{
    let m2 = m.insert(h, after_save(s, p, true));
    assert forall|k: u64| m2.contains_key(k) implies !(#[trigger] m2[k]).dirty by {
        if k != h {
            assert(m2[k] == m[k]);
        }
    }
}

/// A file that opens is written back byte for byte when saved with no change.
pub proof fn lemma_unchanged_save_preserves_bytes(bytes: Seq<u8>, s: SessionView)
    requires
        parse_spec(bytes) == Ok::<(Seq<FrameView>, Seq<u8>), FormatError>((s.document, s.trailer)),
    ensures
        file_image(s) == bytes,
{
    lemma_parse_then_serialize(bytes);
}

/// Why an engine operation failed.
#[derive(Clone, Copy, Debug, PartialEq, Eq, Structural)]
pub enum EngineError {
    /// The file could not be read or written.
    Io,
    /// The file is not a tag container this library can read.
    Format(FormatError),
    /// The handle does not name an open session.
    NotFound,
    UnsupportedImageFormat,
    CorruptImage,
    /// The tag block would outgrow its 32-bit length field.
    TagTooLarge,
    /// Every handle has been given out.
    HandlesExhausted,
}

pub open spec fn engine_error_of(e: ImageError) -> EngineError {
    match e {
        ImageError::UnsupportedImageFormat => EngineError::UnsupportedImageFormat,
        ImageError::CorruptImage => EngineError::CorruptImage,
        ImageError::TagTooLarge => EngineError::TagTooLarge,
    }
}

pub fn image_error_to_engine(e: ImageError) -> (r: EngineError)
    ensures
        r == engine_error_of(e),
{
    match e {
        ImageError::UnsupportedImageFormat => EngineError::UnsupportedImageFormat,
        ImageError::CorruptImage => EngineError::CorruptImage,
        ImageError::TagTooLarge => EngineError::TagTooLarge,
    }
}

/// One registry entry: a handle and the session it names.
#[derive(Debug)]
pub struct Entry {
    pub handle: u64,
    pub session: FileSession,
}

pub open spec fn entry_views(es: Seq<Entry>) -> Seq<(u64, SessionView)> {
    es.map_values(|e: Entry| (e.handle, e.session@))
}

pub open spec fn holds(es: Seq<(u64, SessionView)>, h: u64) -> bool {
    exists|i: int| 0 <= i < es.len() && (#[trigger] es[i]).0 == h
}

pub open spec fn index_of(es: Seq<(u64, SessionView)>, h: u64) -> int {
    choose|i: int| 0 <= i < es.len() && (#[trigger] es[i]).0 == h
}

pub open spec fn distinct_handles(es: Seq<(u64, SessionView)>) -> bool {
    forall|i: int, j: int| 0 <= i < es.len() && 0 <= j < es.len() && i != j ==> (#[trigger] es[i]).0 != (#[trigger] es[j]).0
}

/// The sessions of a list of entries, by handle.
pub open spec fn sessions_of(es: Seq<(u64, SessionView)>) -> Map<u64, SessionView> {
    Map::new(|h: u64| holds(es, h), |h: u64| es[index_of(es, h)].1)
}

pub proof fn lemma_index_of(es: Seq<(u64, SessionView)>, i: int)
    requires
        distinct_handles(es),
        0 <= i < es.len(),
    ensures
        holds(es, es[i].0),
        index_of(es, es[i].0) == i,
{
    let h = es[i].0;
    assert(holds(es, h));
    let k = index_of(es, h);
    assert(es[k].0 == h);
}

pub proof fn lemma_sessions_push(es: Seq<(u64, SessionView)>, h: u64, v: SessionView)
    requires
        distinct_handles(es),
        !holds(es, h),
    ensures
        distinct_handles(es.push((h, v))),
        sessions_of(es.push((h, v))) == sessions_of(es).insert(h, v),
{
    let out = es.push((h, v));
    assert forall|i: int, j: int| 0 <= i < out.len() && 0 <= j < out.len() && i != j implies (#[trigger] out[i]).0 != (#[trigger] out[j]).0 by {
        if i < es.len() && j < es.len() {
            assert(out[i] == es[i] && out[j] == es[j]);
        } else if i < es.len() {
            assert(out[i] == es[i]);
        } else {
            assert(out[j] == es[j]);
        }
    }
    assert forall|g: u64| #[trigger] holds(out, g) == (holds(es, g) || g == h) by {
        if holds(es, g) {
            let i = choose|i: int| 0 <= i < es.len() && (#[trigger] es[i]).0 == g;
            assert(out[i] == es[i]);
        }
        if holds(out, g) && g != h {
            let i = choose|i: int| 0 <= i < out.len() && (#[trigger] out[i]).0 == g;
            assert(out[i] == es[i]);
        }
        if g == h {
            assert(out[es.len() as int].0 == h);
        }
    }
    assert forall|g: u64| holds(es, g) implies #[trigger] sessions_of(out)[g] == sessions_of(es)[g] by {
        let i = index_of(es, g);
        lemma_index_of(es, i);
        assert(out[i] == es[i]);
        lemma_index_of(out, i);
    }
    lemma_index_of(out, es.len() as int);
    assert(sessions_of(out) =~= sessions_of(es).insert(h, v));
}

pub proof fn lemma_sessions_update(es: Seq<(u64, SessionView)>, i: int, v: SessionView)
    requires
        distinct_handles(es),
        0 <= i < es.len(),
    ensures
        distinct_handles(es.update(i, (es[i].0, v))),
        sessions_of(es.update(i, (es[i].0, v))) == sessions_of(es).insert(es[i].0, v),
{
    let h = es[i].0;
    let out = es.update(i, (h, v));
    assert forall|a: int, b: int| 0 <= a < out.len() && 0 <= b < out.len() && a != b implies (#[trigger] out[a]).0 != (#[trigger] out[b]).0 by {
        assert(out[a].0 == es[a].0 && out[b].0 == es[b].0);
    }
    assert forall|g: u64| #[trigger] holds(out, g) == holds(es, g) by {
        if holds(es, g) {
            let k = choose|k: int| 0 <= k < es.len() && (#[trigger] es[k]).0 == g;
            assert(out[k].0 == g);
        }
        if holds(out, g) {
            let k = choose|k: int| 0 <= k < out.len() && (#[trigger] out[k]).0 == g;
            assert(es[k].0 == g);
        }
    }
    assert forall|g: u64| holds(es, g) && g != h implies #[trigger] sessions_of(out)[g] == sessions_of(es)[g] by {
        let k = index_of(es, g);
        lemma_index_of(es, k);
        lemma_index_of(out, k);
    }
    lemma_index_of(out, i);
    lemma_index_of(es, i);
    assert(sessions_of(out) =~= sessions_of(es).insert(h, v));
}

pub proof fn lemma_sessions_remove(es: Seq<(u64, SessionView)>, i: int)
    requires
        distinct_handles(es),
        0 <= i < es.len(),
    ensures
        distinct_handles(es.remove(i)),
        sessions_of(es.remove(i)) == sessions_of(es).remove(es[i].0),
{
    let h = es[i].0;
    let out = es.remove(i);
    assert forall|a: int, b: int| 0 <= a < out.len() && 0 <= b < out.len() && a != b implies (#[trigger] out[a]).0 != (#[trigger] out[b]).0 by {
        let a2 = if a < i { a } else { a + 1 };
        let b2 = if b < i { b } else { b + 1 };
        assert(out[a] == es[a2] && out[b] == es[b2]);
    }
    assert forall|g: u64| #[trigger] holds(out, g) == (holds(es, g) && g != h) by {
        if holds(es, g) && g != h {
            let k = choose|k: int| 0 <= k < es.len() && (#[trigger] es[k]).0 == g;
            if k < i {
                assert(out[k] == es[k]);
            } else {
                assert(k != i);
                assert(out[k - 1] == es[k]);
            }
        }
        if holds(out, g) {
            let k = choose|k: int| 0 <= k < out.len() && (#[trigger] out[k]).0 == g;
            let k2 = if k < i { k } else { k + 1 };
            assert(out[k] == es[k2]);
        }
    }
    assert forall|g: u64| holds(out, g) implies #[trigger] sessions_of(out)[g] == sessions_of(es)[g] by {
        let k = index_of(out, g);
        lemma_index_of(out, k);
        let k2 = if k < i { k } else { k + 1 };
        assert(out[k] == es[k2]);
        lemma_index_of(es, k2);
    }
    assert(sessions_of(out) =~= sessions_of(es).remove(h));
}


pub proof fn lemma_entry_views_update(es: Seq<Entry>, i: int, e: Entry)
    requires
        0 <= i < es.len(),
    ensures
        entry_views(es.remove(i).insert(i, e)) == entry_views(es).update(i, (e.handle, e.session@)),
        es.remove(i).insert(i, e) == es.update(i, e),
{
    assert(es.remove(i).insert(i, e) =~= es.update(i, e));
    assert(entry_views(es.update(i, e)) =~= entry_views(es).update(i, (e.handle, e.session@)));
}

/// The session a file's bytes open to, where they parse.
pub open spec fn opened_view(path: Seq<char>, bytes: Seq<u8>) -> SessionView {
    SessionView {
        path,
        document: parse_spec(bytes)->Ok_0.0,
        trailer: parse_spec(bytes)->Ok_0.1,
        dirty: false,
    }
}

pub open spec fn any_dirty_spec(m: Map<u64, SessionView>) -> bool {
    exists|h: u64| m.contains_key(h) && (#[trigger] m[h]).dirty
}

/// A file handed to `open_files`: its path, and its bytes where it could be read.
#[derive(Debug)]
pub struct FileInput {
    pub path: String,
    pub contents: Option<Vec<u8>>,
}

/// What the surrounding application does when its window is asked to close.
#[derive(Clone, Copy, Debug, PartialEq, Eq, Structural)]
pub enum CloseAction {
    /// Nothing is unsaved: close at once.
    Close,
    /// Some session is dirty: keep the window and ask the user first.
    Confirm,
}

/// What a view shows of one open file.
#[derive(Debug)]
pub struct Page {
    /// The text frames, in document order.
    pub fields: Vec<Frame>,
    pub has_image: bool,
}

pub open spec fn text_frames(fs: Seq<FrameView>) -> Seq<FrameView> {
    fs.filter(|f: FrameView| is_text_type(f.type_id))
}

/// Entries with distinct handles, all below `next`, and sessions that are well formed.
pub open spec fn entries_wf(es: Seq<Entry>, next: u64) -> bool {
    &&& distinct_handles(entry_views(es))
    &&& forall|i: int| 0 <= i < es.len() ==> (#[trigger] es[i]).session.wf()
    &&& forall|i: int| 0 <= i < es.len() ==> (#[trigger] es[i]).handle < next
}

pub proof fn lemma_replace_entry(es: Seq<Entry>, next: u64, i: int, e: Entry)
    requires
        entries_wf(es, next),
        0 <= i < es.len(),
        e.handle == es[i].handle,
        e.session.wf(),
    ensures
        entries_wf(es.remove(i).insert(i, e), next),
        sessions_of(entry_views(es.remove(i).insert(i, e))) == sessions_of(entry_views(es)).insert(
            e.handle,
            e.session@,
        ),
        sessions_of(entry_views(es)).contains_key(e.handle),
        sessions_of(entry_views(es))[e.handle] == es[i].session@,
{
    let ev = entry_views(es);
    lemma_entry_views_update(es, i, e);
    assert(ev[i] == (es[i].handle, es[i].session@));
    lemma_sessions_update(ev, i, e.session@);
    lemma_index_of(ev, i);
    let out = es.update(i, e);
    assert forall|k: int| 0 <= k < out.len() implies (#[trigger] out[k]).session.wf() && out[k].handle < next by {
        if k != i {
            assert(out[k] == es[k]);
        }
    }
}

/// The open sessions, each under the handle it was given.
#[derive(Debug)]
pub struct SessionRegistry {
    pub entries: Vec<Entry>,
    pub next_handle: u64,
}

impl SessionRegistry {
    pub open spec fn sessions(&self) -> Map<u64, SessionView> {
        sessions_of(entry_views(self.entries@))
    }

    pub open spec fn wf(&self) -> bool {
        entries_wf(self.entries@, self.next_handle)
    }

    pub fn new() -> (r: SessionRegistry)
        ensures
            r.wf(),
            r.sessions() == Map::<u64, SessionView>::empty(),
    {
        let r = SessionRegistry { entries: Vec::new(), next_handle: 0 };
        assert(r.sessions() =~= Map::<u64, SessionView>::empty());
        r
    }


    /// Opens a session on a file's bytes and gives it a fresh handle.
    pub fn open(&mut self, path: String, bytes: &Vec<u8>) -> (r: Result<u64, EngineError>)
        requires
            old(self).wf(),
        ensures
            final(self).wf(),
            match r {
                Ok(h) => {
                    &&& parse_spec(bytes@) is Ok
                    &&& !old(self).sessions().contains_key(h)
                    &&& final(self).sessions() == old(self).sessions().insert(h, opened_view(path@, bytes@))
                },
                Err(e) => final(self).sessions() == old(self).sessions() && (match parse_spec(bytes@) {
                    Err(fe) => e == EngineError::Format(fe),
                    Ok(_) => e == EngineError::HandlesExhausted && old(self).next_handle == u64::MAX,
                }),
            },
            parse_spec(bytes@) is Ok && old(self).next_handle < u64::MAX ==> r is Ok,
            r matches Ok(h) ==> h == old(self).next_handle && final(self).next_handle == h + 1,
            r is Err ==> final(self).next_handle == old(self).next_handle,
    {
        let session = match FileSession::open(path, bytes) {
            Ok(s) => s,
            Err(e) => {
                return Err(EngineError::Format(e));
            },
        };
        if self.next_handle == u64::MAX {
            return Err(EngineError::HandlesExhausted);
        }
        let h = self.next_handle;
        let ghost es = entry_views(self.entries@);
        proof {
            if holds(es, h) {
                let k = choose|k: int| 0 <= k < es.len() && (#[trigger] es[k]).0 == h;
                assert(self.entries@[k].handle < h);
            }
            lemma_sessions_push(es, h, session@);
        }
        let e = Entry { handle: h, session };
        self.entries.push(e);
        self.next_handle = h + 1;
        assert(entry_views(self.entries@) =~= es.push((h, e.session@)));
        assert forall|i: int| 0 <= i < self.entries@.len() implies (#[trigger] self.entries@[i]).session.wf() && self.entries@[i].handle < self.next_handle by {
            if i < es.len() {
                assert(self.entries@[i] == old(self).entries@[i]);
            }
        }
        Ok(h)
    }

    /// Opens each file on its own; one that fails does not stop the others.
    pub fn open_files(&mut self, files: &Vec<FileInput>) -> (r: Vec<Result<u64, EngineError>>)
        requires
            old(self).wf(),
        ensures
            final(self).wf(),
            r.len() == files.len(),
            forall|i: int| 0 <= i < r.len() ==> match #[trigger] files@[i].contents {
                None => r@[i] == Err::<u64, EngineError>(EngineError::Io),
                Some(b) => match parse_spec(b@) {
                    Err(fe) => r@[i] == Err::<u64, EngineError>(EngineError::Format(fe)),
                    Ok(_) => r@[i] is Ok || r@[i] == Err::<u64, EngineError>(EngineError::HandlesExhausted),
                },
            },
            forall|i: int| 0 <= i < r.len() && #[trigger] r@[i] is Ok ==> {
                &&& !old(self).sessions().contains_key(r@[i]->Ok_0)
                &&& files@[i].contents is Some
                &&& final(self).sessions().contains_key(r@[i]->Ok_0)
                &&& final(self).sessions()[r@[i]->Ok_0] == opened_view(
                    files@[i].path@,
                    files@[i].contents->Some_0@,
                )
            },
            forall|h: u64| #[trigger] final(self).sessions().contains_key(h) <==> (old(self).sessions().contains_key(h)
                || exists|i: int| 0 <= i < r.len() && r@[i] == Ok::<u64, EngineError>(h)),
            forall|h: u64| old(self).sessions().contains_key(h) ==> #[trigger] final(self).sessions()[h] == old(self).sessions()[h],
            old(self).next_handle <= final(self).next_handle,
            old(self).next_handle as int + files.len() <= u64::MAX as int ==> forall|i: int|
                0 <= i < r.len() && (#[trigger] files@[i].contents matches Some(b) && parse_spec(b@) is Ok)
                    ==> r@[i] is Ok,
    {
        let mut out: Vec<Result<u64, EngineError>> = Vec::new();
        let mut i: usize = 0;
        while i < files.len()
            invariant
                i <= files.len(),
                out.len() == i,
                self.wf(),
                forall|j: int| 0 <= j < i ==> match #[trigger] files@[j].contents {
                    None => out@[j] == Err::<u64, EngineError>(EngineError::Io),
                    Some(b) => match parse_spec(b@) {
                        Err(fe) => out@[j] == Err::<u64, EngineError>(EngineError::Format(fe)),
                        Ok(_) => out@[j] is Ok || out@[j] == Err::<u64, EngineError>(EngineError::HandlesExhausted),
                    },
                },
                forall|j: int| 0 <= j < i && #[trigger] out@[j] is Ok ==> {
                    &&& !old(self).sessions().contains_key(out@[j]->Ok_0)
                    &&& files@[j].contents is Some
                    &&& self.sessions().contains_key(out@[j]->Ok_0)
                    &&& self.sessions()[out@[j]->Ok_0] == opened_view(
                        files@[j].path@,
                        files@[j].contents->Some_0@,
                    )
                },
                forall|h: u64| #[trigger] self.sessions().contains_key(h) <==> (old(self).sessions().contains_key(h)
                    || exists|j: int| 0 <= j < i && out@[j] == Ok::<u64, EngineError>(h)),
                forall|h: u64| old(self).sessions().contains_key(h) ==> #[trigger] self.sessions()[h] == old(self).sessions()[h],
                old(self).next_handle <= self.next_handle <= old(self).next_handle as int + i,
                old(self).next_handle as int + files.len() <= u64::MAX as int ==> forall|j: int|
                    0 <= j < i && (#[trigger] files@[j].contents matches Some(b) && parse_spec(b@) is Ok)
                        ==> out@[j] is Ok,
            decreases files.len() - i,
        {
            let ghost before = self.sessions();
            let ghost out_before = out@;
            let res = match &files[i].contents {
                None => Err(EngineError::Io),
                Some(b) => self.open(files[i].path.clone(), b),
            };
            out.push(res);
            proof {
                assert forall|g: u64| #[trigger] self.sessions().contains_key(g) == (before.contains_key(g)
                    || res == Ok::<u64, EngineError>(g)) by {
                    match res {
                        Ok(h2) => {
                            assert(self.sessions() == before.insert(h2, self.sessions()[h2]));
                        },
                        Err(_) => {},
                    }
                }
                assert forall|h: u64| #[trigger] self.sessions().contains_key(h) <==> (old(self).sessions().contains_key(h)
                    || exists|j: int| 0 <= j < i + 1 && out@[j] == Ok::<u64, EngineError>(h)) by {
                    if self.sessions().contains_key(h) {
                        if !before.contains_key(h) {
                            assert(out@[i as int] == Ok::<u64, EngineError>(h));
                        } else if !old(self).sessions().contains_key(h) {
                            assert(exists|j: int| 0 <= j < i && out_before[j] == Ok::<u64, EngineError>(h));
                            let j = choose|j: int| 0 <= j < i && out_before[j] == Ok::<u64, EngineError>(h);
                            assert(out@[j] == out_before[j]);
                        }
                    }
                    if exists|j: int| 0 <= j < i + 1 && out@[j] == Ok::<u64, EngineError>(h) {
                        let j = choose|j: int| 0 <= j < i + 1 && out@[j] == Ok::<u64, EngineError>(h);
                        if j < i {
                            assert(out@[j] == out_before[j]);
                            assert(before.contains_key(h));
                        } else {
                            assert(res == Ok::<u64, EngineError>(h));
                        }
                    }
                    if old(self).sessions().contains_key(h) {
                        assert(before.contains_key(h));
                    }
                }
                assert forall|j: int| 0 <= j < i + 1 && #[trigger] out@[j] is Ok implies {
                    &&& !old(self).sessions().contains_key(out@[j]->Ok_0)
                    &&& files@[j].contents is Some
                    &&& self.sessions().contains_key(out@[j]->Ok_0)
                    &&& self.sessions()[out@[j]->Ok_0] == opened_view(
                        files@[j].path@,
                        files@[j].contents->Some_0@,
                    )
                } by {
                    if j < i {
                        assert(before.contains_key(out@[j]->Ok_0));
                    }
                }
            }
            i = i + 1;
        }
        out
    }

    /// Drops a session, whether or not it has unsaved changes.
    pub fn close(&mut self, h: u64) -> (r: Result<(), EngineError>)
        requires
            old(self).wf(),
        ensures
            final(self).wf(),
            r is Ok <==> old(self).sessions().contains_key(h),
            r is Err ==> r == Err::<(), EngineError>(EngineError::NotFound),
            final(self).sessions() == old(self).sessions().remove(h),
    {
        match self.find(h) {
            None => {
                assert(old(self).sessions().remove(h) =~= old(self).sessions());
                Err(EngineError::NotFound)
            },
            Some(i) => {
                let ghost es = entry_views(self.entries@);
                proof {
                    lemma_sessions_remove(es, i as int);
                }
                self.entries.remove(i);
                assert(entry_views(self.entries@) =~= es.remove(i as int));
                assert forall|k: int| 0 <= k < self.entries@.len() implies (#[trigger] self.entries@[k]).session.wf() && self.entries@[k].handle < self.next_handle by {
                    if k < i {
                        assert(self.entries@[k] == old(self).entries@[k]);
                    } else {
                        assert(self.entries@[k] == old(self).entries@[k + 1]);
                    }
                }
                Ok(())
            },
        }
    }

    /// Whether any open session has unsaved changes.
    pub fn any_dirty(&self) -> (r: bool)
        requires
            self.wf(),
        ensures
            r == any_dirty_spec(self.sessions()),
    {
        let ghost es = entry_views(self.entries@);
        let mut i: usize = 0;
        while i < self.entries.len()
            invariant
                i <= self.entries.len(),
                self.wf(),
                es == entry_views(self.entries@),
                forall|j: int| 0 <= j < i ==> !(#[trigger] es[j]).1.dirty,
            decreases self.entries.len() - i,
        {
            if self.entries[i].session.dirty {
                proof {
                    assert(es[i as int] == (self.entries@[i as int].handle, self.entries@[i as int].session@));
                    lemma_index_of(es, i as int);
                    let h = es[i as int].0;
                    assert(self.sessions().contains_key(h));
                    assert(self.sessions()[h] == es[i as int].1);
                    assert(self.sessions()[h].dirty);
                }
                return true;
            }
            i = i + 1;
        }
        proof {
            if any_dirty_spec(self.sessions()) {
                let h = choose|h: u64| self.sessions().contains_key(h) && (#[trigger] self.sessions()[h]).dirty;
                let k = index_of(es, h);
                assert(es[k].1 == self.sessions()[h]);
                assert(!es[k].1.dirty);
            }
        }
        false
    }

    /// Decides what a request to close the application leads to.
    pub fn on_close_requested(&self) -> (r: CloseAction)
        requires
            self.wf(),
        ensures
            r == CloseAction::Confirm <==> any_dirty_spec(self.sessions()),
    {
        if self.any_dirty() {
            CloseAction::Confirm
        } else {
            CloseAction::Close
        }
    }


    /// Sets a text field of the session under `h`.
    pub fn set_field(&mut self, h: u64, t: u32, payload: Vec<u8>) -> (r: Result<(), EngineError>)
        requires
            old(self).wf(),
        ensures
            final(self).wf(),
            !old(self).sessions().contains_key(h) ==> r == Err::<(), EngineError>(EngineError::NotFound)
                && final(self).sessions() == old(self).sessions(),
            old(self).sessions().contains_key(h) ==> match r {
                Ok(_) => final(self).sessions() == old(self).sessions().insert(h, SessionView {
                    document: set_spec(old(self).sessions()[h].document, t, payload@),
                    dirty: true,
                    ..old(self).sessions()[h]
                }),
                Err(e) => e == EngineError::TagTooLarge && final(self).sessions() == old(self).sessions()
                    && !frames_fit(set_spec(old(self).sessions()[h].document, t, payload@)),
            },
    {
        let i = match self.find(h) {
            None => {
                return Err(EngineError::NotFound);
            },
            Some(i) => i,
        };
        let mut e = self.entries.remove(i);
        let res = e.session.set_field(t, payload);
        self.entries.insert(i, e);
        proof {
            lemma_replace_entry(old(self).entries@, self.next_handle, i as int, e);
        }
        match res {
            Ok(()) => Ok(()),
            Err(_) => {
                assert(self.sessions() =~= old(self).sessions());
                Err(EngineError::TagTooLarge)
            },
        }
    }

    /// Embeds a cover image in the session under `h`.
    pub fn set_image(&mut self, h: u64, mime: &Vec<u8>, raw: &Vec<u8>) -> (r: Result<(), EngineError>)
        requires
            old(self).wf(),
        ensures
            final(self).wf(),
            !old(self).sessions().contains_key(h) ==> r == Err::<(), EngineError>(EngineError::NotFound)
                && final(self).sessions() == old(self).sessions(),
            old(self).sessions().contains_key(h) ==> {
                &&& r == Err::<(), EngineError>(EngineError::UnsupportedImageFormat) <==> (mime_kind_spec(mime@) is None
                    || sniff_spec(raw@) != mime_kind_spec(mime@))
                &&& r == Err::<(), EngineError>(EngineError::TagTooLarge) ==> !frames_fit(
                    set_spec(old(self).sessions()[h].document, FRAME_COVER, image_payload(mime@, raw@)),
                )
                &&& r is Err ==> r == Err::<(), EngineError>(EngineError::UnsupportedImageFormat)
                    || r == Err::<(), EngineError>(EngineError::TagTooLarge)
                &&& r is Err ==> final(self).sessions() == old(self).sessions()
                &&& r is Ok ==> final(self).sessions() == old(self).sessions().insert(h, SessionView {
                    document: set_spec(old(self).sessions()[h].document, FRAME_COVER, image_payload(mime@, raw@)),
                    dirty: true,
                    ..old(self).sessions()[h]
                })
            },
    {
        let i = match self.find(h) {
            None => {
                return Err(EngineError::NotFound);
            },
            Some(i) => i,
        };
        let mut e = self.entries.remove(i);
        let res = e.session.set_image(mime, raw);
        self.entries.insert(i, e);
        proof {
            lemma_replace_entry(old(self).entries@, self.next_handle, i as int, e);
        }
        match res {
            Ok(()) => Ok(()),
            Err(err) => {
                assert(self.sessions() =~= old(self).sessions());
                Err(image_error_to_engine(err))
            },
        }
    }

    /// Takes the cover image out of the session under `h`.
    pub fn remove_image(&mut self, h: u64) -> (r: Result<(), EngineError>)
        requires
            old(self).wf(),
        ensures
            final(self).wf(),
            r is Ok <==> old(self).sessions().contains_key(h),
            r is Err ==> r == Err::<(), EngineError>(EngineError::NotFound)
                && final(self).sessions() == old(self).sessions(),
            r is Ok ==> final(self).sessions() == old(self).sessions().insert(h, SessionView {
                document: remove_spec(old(self).sessions()[h].document, FRAME_COVER),
                dirty: true,
                ..old(self).sessions()[h]
            }),
            r is Ok ==> image_of(final(self).sessions()[h].document) is None,
    {
        let i = match self.find(h) {
            None => {
                return Err(EngineError::NotFound);
            },
            Some(i) => i,
        };
        let mut e = self.entries.remove(i);
        e.session.remove_image();
        self.entries.insert(i, e);
        proof {
            lemma_replace_entry(old(self).entries@, self.next_handle, i as int, e);
        }
        Ok(())
    }

    /// The cover image of the session under `h`; `Ok(None)` where it has none.
    pub fn get_image(&self, h: u64) -> (r: Result<Option<ImageData>, EngineError>)
        requires
            self.wf(),
        ensures
            r is Err <==> !self.sessions().contains_key(h),
            r is Err ==> r matches Err(EngineError::NotFound),
            r matches Ok(Some(img)) ==> image_of(self.sessions()[h].document) == Some((img.mime@, img.data@)),
            r matches Ok(None) ==> image_of(self.sessions()[h].document) is None,
    {
        match self.find(h) {
            None => Err(EngineError::NotFound),
            Some(i) => {
                proof {
                    lemma_index_of(entry_views(self.entries@), i as int);
                }
                Ok(self.entries[i].session.get_image())
            },
        }
    }

    /// The bytes that saving the session under `h` writes.
    pub fn file_bytes(&self, h: u64) -> (r: Result<Vec<u8>, EngineError>)
        requires
            self.wf(),
        ensures
            r is Err <==> !self.sessions().contains_key(h),
            r is Err ==> r matches Err(EngineError::NotFound),
            r matches Ok(b) ==> b@ == file_image(self.sessions()[h]),
    {
        match self.find(h) {
            None => Err(EngineError::NotFound),
            Some(i) => {
                proof {
                    lemma_index_of(entry_views(self.entries@), i as int);
                }
                Ok(self.entries[i].session.file_bytes())
            },
        }
    }

    /// Records whether the bytes of the session under `h` reached the disk, and
    /// under which new path, if any.
    pub fn finish_save(&mut self, h: u64, new_path: Option<String>, written: bool) -> (r: Result<(), EngineError>)
        requires
            old(self).wf(),
        ensures
            final(self).wf(),
            r is Ok <==> old(self).sessions().contains_key(h),
            r is Err ==> r == Err::<(), EngineError>(EngineError::NotFound)
                && final(self).sessions() == old(self).sessions(),
            r is Ok ==> final(self).sessions() == old(self).sessions().insert(h, after_save(
                old(self).sessions()[h],
                match new_path {
                    Some(p) => Some(p@),
                    None => None,
                },
                written,
            )),
    {
        let i = match self.find(h) {
            None => {
                return Err(EngineError::NotFound);
            },
            Some(i) => i,
        };
        let mut e = self.entries.remove(i);
        e.session.finish_save(new_path, written);
        self.entries.insert(i, e);
        proof {
            lemma_replace_entry(old(self).entries@, self.next_handle, i as int, e);
        }
        Ok(())
    }

    /// What a view shows of the session under `h`: its text frames, and
    /// whether it holds a cover image.
    pub fn get_page(&self, h: u64) -> (r: Result<Page, EngineError>)
        requires
            self.wf(),
        ensures
            r is Err <==> !self.sessions().contains_key(h),
            r is Err ==> r matches Err(EngineError::NotFound),
            r matches Ok(p) ==> {
                &&& p.fields@.map_values(|f: Frame| f@) == text_frames(self.sessions()[h].document)
                &&& p.has_image == has_type(self.sessions()[h].document, FRAME_COVER)
            },
    {
        match self.find(h) {
            None => Err(EngineError::NotFound),
            Some(i) => {
                proof {
                    lemma_index_of(entry_views(self.entries@), i as int);
                }
                let doc = &self.entries[i].session.document;
                let ghost fs = doc@;
                let mut fields: Vec<Frame> = Vec::new();
                let mut k: usize = 0;
                proof {
                    reveal(Seq::filter);
                    assert(fs.take(0) =~= Seq::<FrameView>::empty());
                    assert(fields@.map_values(|f: Frame| f@) =~= text_frames(fs.take(0)));
                }
                while k < doc.frames.len()
                    invariant
                        k <= doc.frames.len(),
                        fs == doc@,
                        fields@.map_values(|f: Frame| f@) == text_frames(fs.take(k as int)),
                    decreases doc.frames.len() - k,
                {
                    proof {
                        reveal(Seq::filter);
                        assert(fs.take(k as int + 1).drop_last() =~= fs.take(k as int));
                        assert(fs[k as int] == doc.frames@[k as int]@);
                    }
                    let t = doc.frames[k].type_id;
                    if 1 <= t && t <= 4 {
                        let g = doc.frames[k].copy();
                        proof {
                            crate::document::lemma_views_push(fields@, g);
                        }
                        fields.push(g);
                    }
                    k = k + 1;
                }
                assert(fs.take(k as int) =~= fs);
                let has_image = doc.find_first(FRAME_COVER).is_some();
                Ok(Page { fields, has_image })
            },
        }
    }

    /// The path of the session under `h`.
    pub fn path(&self, h: u64) -> (r: Result<String, EngineError>)
        requires
            self.wf(),
        ensures
            r is Err <==> !self.sessions().contains_key(h),
            r is Err ==> r matches Err(EngineError::NotFound),
            r matches Ok(p) ==> p@ == self.sessions()[h].path,
    {
        match self.find(h) {
            None => Err(EngineError::NotFound),
            Some(i) => {
                proof {
                    lemma_index_of(entry_views(self.entries@), i as int);
                }
                Ok(self.entries[i].session.path.clone())
            },
        }
    }

    /// Handles of the open sessions, in the order they were opened.
    pub fn handles(&self) -> (r: Vec<u64>)
        requires
            self.wf(),
        ensures
            forall|h: u64| #[trigger] self.sessions().contains_key(h) <==> r@.contains(h),
            r@.no_duplicates(),
            r@ == entry_views(self.entries@).map_values(|e: (u64, SessionView)| e.0),
    {
        let ghost es = entry_views(self.entries@);
        let mut r: Vec<u64> = Vec::new();
        let mut i: usize = 0;
        while i < self.entries.len()
            invariant
                i <= self.entries.len(),
                es == entry_views(self.entries@),
                r@ == es.take(i as int).map_values(|e: (u64, SessionView)| e.0),
            decreases self.entries.len() - i,
        {
            r.push(self.entries[i].handle);
            i = i + 1;
            assert(r@ =~= es.take(i as int).map_values(|e: (u64, SessionView)| e.0));
        }
        assert(es.take(i as int) =~= es);
        proof {
            assert forall|h: u64| #[trigger] self.sessions().contains_key(h) <==> r@.contains(h) by {
                if r@.contains(h) {
                    let k = choose|k: int| 0 <= k < r@.len() && r@[k] == h;
                    assert(es[k].0 == h);
                }
                if self.sessions().contains_key(h) {
                    let k = index_of(es, h);
                    assert(r@[k] == h);
                }
            }
            assert forall|a: int, b: int| 0 <= a < r@.len() && 0 <= b < r@.len() && a != b implies r@[a] != r@[b] by {
                assert(r@[a] == es[a].0 && r@[b] == es[b].0);
            }
        }
        r
    }

    /// Position of the entry for `h`.
    fn find(&self, h: u64) -> (r: Option<usize>)
        requires
            self.wf(),
        ensures
            match r {
                Some(i) => i < self.entries@.len() && self.entries@[i as int].handle == h
                    && self.sessions().contains_key(h),
                None => !self.sessions().contains_key(h),
            },
    {
        let ghost es = entry_views(self.entries@);
        let mut i: usize = 0;
        while i < self.entries.len()
            invariant
                i <= self.entries.len(),
                es == entry_views(self.entries@),
                forall|j: int| 0 <= j < i ==> (#[trigger] es[j]).0 != h,
            decreases self.entries.len() - i,
        {
            if self.entries[i].handle == h {
                assert(es[i as int].0 == h);
                return Some(i);
            }
            i = i + 1;
        }
        proof {
            if holds(es, h) {
                let k = choose|k: int| 0 <= k < es.len() && (#[trigger] es[k]).0 == h;
                assert(es[k].0 == h);
            }
        }
        None
    }
}

} // verus!
