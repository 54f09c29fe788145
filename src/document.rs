use vstd::prelude::*;
use crate::bytes::{be32, be32_at, copy_range, lemma_be32_of_bytes, push_all, push_be32, read_be32, u32_bytes};
use crate::frame::{encode_frame_spec, FRAME_HEADER_LEN, frame_fits, Frame, FrameView, FormatError, ENCODING_UTF8};

verus! {

/// Bytes before the frames: the marker "MTAG", a version byte, the length of the frames.
pub const TAG_HEADER_LEN: usize = 9;

pub const TAG_VERSION: u8 = 1;

/// The marker that opens every tag block.
pub open spec fn magic() -> Seq<u8> {
    seq![77u8, 84u8, 65u8, 71u8]
}

pub open spec fn header_bytes(block_len: u32) -> Seq<u8> {
    magic() + seq![TAG_VERSION] + u32_bytes(block_len)
}

/// The frames one after another, each in its encoded form.
pub open spec fn frames_bytes(fs: Seq<FrameView>) -> Seq<u8>
    decreases fs.len(),
{
    if fs.len() == 0 {
        Seq::empty()
    } else {
        frames_bytes(fs.drop_last()) + encode_frame_spec(fs.last())
    }
}

/// The tag block of a document: header, then frames.
pub open spec fn serialize_spec(fs: Seq<FrameView>) -> Seq<u8> {
    header_bytes(frames_bytes(fs).len() as u32) + frames_bytes(fs)
}

/// A sequence of frames that a tag block can hold.
pub open spec fn frames_fit(fs: Seq<FrameView>) -> bool {
    &&& forall|i: int| 0 <= i < fs.len() ==> frame_fits(#[trigger] fs[i])
    &&& frames_bytes(fs).len() <= u32::MAX
}

pub open spec fn prepend(p: Seq<FrameView>, r: Result<Seq<FrameView>, FormatError>) -> Result<
    Seq<FrameView>,
    FormatError,
> {
    match r {
        Ok(rest) => Ok(p + rest),
        Err(e) => Err(e),
    }
}

/// The frames that a frame region holds, read front to back.
pub open spec fn decode_frames(region: Seq<u8>) -> Result<Seq<FrameView>, FormatError>
    decreases region.len(),
{
    if region.len() == 0 {
        Ok(Seq::empty())
    } else if region.len() < 9 {
        Err(FormatError::CorruptFrame)
    } else if be32_at(region, 4) as int > region.len() - 9 {
        Err(FormatError::TruncatedFrame)
    } else {
        let end = 9 + be32_at(region, 4) as int;
        let f = FrameView {
            type_id: be32_at(region, 0),
            encoding: region[8],
            payload: region.subrange(9, end),
        };
        prepend(seq![f], decode_frames(region.subrange(end, region.len() as int)))
    }
}

/// What a file's bytes hold: its frames and the bytes after the tag block.
pub open spec fn parse_spec(bytes: Seq<u8>) -> Result<(Seq<FrameView>, Seq<u8>), FormatError> {
    if bytes.len() < 9 || bytes.take(4) != magic() || bytes[4] != TAG_VERSION {
        Err(FormatError::CorruptHeader)
    } else if be32_at(bytes, 5) as int > bytes.len() - 9 {
        Err(FormatError::TruncatedFrame)
    } else {
        let end = 9 + be32_at(bytes, 5) as int;
        match decode_frames(bytes.subrange(9, end)) {
            Ok(fs) => Ok((fs, bytes.subrange(end, bytes.len() as int))),
            Err(e) => Err(e),
        }
    }
}

pub open spec fn has_type(fs: Seq<FrameView>, t: u32) -> bool {
    exists|i: int| 0 <= i < fs.len() && (#[trigger] fs[i]).type_id == t
}

/// `i` is the first position of a frame of type `t`.
pub open spec fn is_first(fs: Seq<FrameView>, t: u32, i: int) -> bool {
    &&& 0 <= i < fs.len()
    &&& fs[i].type_id == t
    &&& forall|j: int| 0 <= j < i ==> (#[trigger] fs[j]).type_id != t
}

pub open spec fn first_index(fs: Seq<FrameView>, t: u32) -> int {
    choose|i: int| is_first(fs, t, i)
}

/// The frame that `get` finds: the first one of the type.
pub open spec fn get_spec(fs: Seq<FrameView>, t: u32) -> Option<FrameView> {
    if has_type(fs, t) {
        Some(fs[first_index(fs, t)])
    } else {
        None
    }
}

/// The frames after setting a value: the first frame of the type is replaced in
/// place, or the new frame is appended.
pub open spec fn set_spec(fs: Seq<FrameView>, t: u32, payload: Seq<u8>) -> Seq<FrameView> {
    let f = FrameView { type_id: t, encoding: ENCODING_UTF8, payload };
    if has_type(fs, t) {
        fs.update(first_index(fs, t), f)
    } else {
        fs.push(f)
    }
}

/// The frames after removing every frame of type `t`.
pub open spec fn remove_spec(fs: Seq<FrameView>, t: u32) -> Seq<FrameView> {
    fs.filter(|f: FrameView| f.type_id != t)
}

pub open spec fn views(v: Seq<Frame>) -> Seq<FrameView> {
    v.map_values(|f: Frame| f@)
}

pub proof fn lemma_views_push(v: Seq<Frame>, f: Frame)
    ensures
        views(v.push(f)) == views(v).push(f@),
{
    assert(views(v.push(f)) =~= views(v).push(f@));
}

pub proof fn lemma_bytes_of_be32(a: u8, b: u8, c: u8, d: u8)
    ensures
        u32_bytes(be32(a, b, c, d)) == seq![a, b, c, d],
{
    let x = be32(a, b, c, d);
    assert((x >> 24u32) as u8 == a && (x >> 16u32) as u8 == b && (x >> 8u32) as u8 == c && x as u8
        == d) by (bit_vector)
        requires
            x == ((a as u32) << 24u32) | ((b as u32) << 16u32) | ((c as u32) << 8u32) | (d as u32),
    ;
    assert(u32_bytes(x) =~= seq![a, b, c, d]);
}

pub proof fn lemma_frames_bytes_cons(f: FrameView, rest: Seq<FrameView>)
    ensures
        frames_bytes(seq![f] + rest) == encode_frame_spec(f) + frames_bytes(rest),
    decreases rest.len(),
{
    if rest.len() == 0 {
        assert(seq![f] + rest =~= seq![f]);
        assert(seq![f].drop_last() =~= Seq::<FrameView>::empty());
        assert(frames_bytes(Seq::<FrameView>::empty()) =~= Seq::<u8>::empty());
        assert(frames_bytes(rest) =~= Seq::<u8>::empty());
        assert(frames_bytes(seq![f]) =~= encode_frame_spec(f));
        assert(encode_frame_spec(f) + frames_bytes(rest) =~= encode_frame_spec(f));
    } else {
        let s = seq![f] + rest;
        assert(s.drop_last() =~= seq![f] + rest.drop_last());
        lemma_frames_bytes_cons(f, rest.drop_last());
        assert(s.last() == rest.last());
        assert(frames_bytes(s) =~= encode_frame_spec(f) + frames_bytes(rest));
    }
}

/// Reading the frames of a region and writing them again gives the region back.
pub proof fn lemma_decode_frames_bytes(region: Seq<u8>)
    requires
        decode_frames(region) is Ok,
    ensures
        frames_bytes(decode_frames(region)->Ok_0) == region,
        forall|i: int|
            0 <= i < decode_frames(region)->Ok_0.len() ==> frame_fits(
                #[trigger] decode_frames(region)->Ok_0[i],
            ),
    decreases region.len(),
{
    if region.len() == 0 {
        assert(frames_bytes(Seq::<FrameView>::empty()) =~= region);
    } else {
        let end = 9 + be32_at(region, 4) as int;
        let f = FrameView {
            type_id: be32_at(region, 0),
            encoding: region[8],
            payload: region.subrange(9, end),
        };
        let tail = region.subrange(end, region.len() as int);
        lemma_decode_frames_bytes(tail);
        let rest = decode_frames(tail)->Ok_0;
        lemma_frames_bytes_cons(f, rest);
        lemma_bytes_of_be32(region[0], region[1], region[2], region[3]);
        lemma_bytes_of_be32(region[4], region[5], region[6], region[7]);
        assert(f.payload.len() as u32 == be32_at(region, 4));
        assert(encode_frame_spec(f) + tail =~= region);
        let fs = seq![f] + rest;
        assert forall|i: int| 0 <= i < fs.len() implies frame_fits(#[trigger] fs[i]) by {
            if i > 0 {
                assert(fs[i] == rest[i - 1]);
            }
        }
    }
}

/// Writing frames that fit and reading them back gives the same frames.
pub proof fn lemma_frames_round_trip(fs: Seq<FrameView>)
    requires
        forall|i: int| 0 <= i < fs.len() ==> frame_fits(#[trigger] fs[i]),
    ensures
        decode_frames(frames_bytes(fs)) == Ok::<Seq<FrameView>, FormatError>(fs),
    decreases fs.len(),
{
    if fs.len() > 0 {
        let f = fs[0];
        let rest = fs.drop_first();
        assert(fs =~= seq![f] + rest);
        lemma_frames_bytes_cons(f, rest);
        assert forall|i: int| 0 <= i < rest.len() implies frame_fits(#[trigger] rest[i]) by {
            assert(rest[i] == fs[i + 1]);
        }
        lemma_frames_round_trip(rest);
        let region = frames_bytes(fs);
        let enc = encode_frame_spec(f);
        lemma_be32_of_bytes(f.type_id);
        lemma_be32_of_bytes(f.payload.len() as u32);
        assert(region.subrange(0, 4) =~= u32_bytes(f.type_id));
        assert(region.subrange(4, 8) =~= u32_bytes(f.payload.len() as u32));
        assert(be32_at(region, 0) == be32_at(u32_bytes(f.type_id), 0));
        assert(be32_at(region, 4) == be32_at(u32_bytes(f.payload.len() as u32), 0));
        let end: int = 9 + f.payload.len() as int;
        assert(region.subrange(9, end) =~= f.payload);
        assert(region.subrange(end, region.len() as int) =~= frames_bytes(rest));
        let g = FrameView {
            type_id: be32_at(region, 0),
            encoding: region[8],
            payload: region.subrange(9, end),
        };
        assert(g == f);
    } else {
        assert(frames_bytes(fs) =~= Seq::<u8>::empty());
        assert(fs =~= Seq::<FrameView>::empty());
    }
}


/// Writing a document that fits, followed by any trailer, and reading it back
/// gives the same frames and the same trailer.
pub proof fn lemma_round_trip(fs: Seq<FrameView>, trailer: Seq<u8>)
    requires
        frames_fit(fs),
    ensures
        parse_spec(serialize_spec(fs) + trailer) == Ok::<(Seq<FrameView>, Seq<u8>), FormatError>(
            (fs, trailer),
        ),
{
    let body = frames_bytes(fs);
    let bytes = serialize_spec(fs) + trailer;
    lemma_frames_round_trip(fs);
    lemma_be32_of_bytes(body.len() as u32);
    assert(bytes.take(4) =~= magic());
    assert(bytes.subrange(5, 9) =~= u32_bytes(body.len() as u32));
    assert(be32_at(bytes, 5) == be32_at(u32_bytes(body.len() as u32), 0));
    let end = 9 + body.len();
    assert(bytes.subrange(9, end as int) =~= body);
    assert(bytes.subrange(end as int, bytes.len() as int) =~= trailer);
}

/// Whatever a file holds, once read, is written back byte for byte: frames of
/// unknown types and encodings included, and the trailer.
pub proof fn lemma_parse_then_serialize(bytes: Seq<u8>)
    requires
        parse_spec(bytes) is Ok,
    ensures
        serialize_spec(parse_spec(bytes)->Ok_0.0) + parse_spec(bytes)->Ok_0.1 == bytes,
        frames_fit(parse_spec(bytes)->Ok_0.0),
{
    let end = 9 + be32_at(bytes, 5) as int;
    let region = bytes.subrange(9, end);
    lemma_decode_frames_bytes(region);
    lemma_bytes_of_be32(bytes[5], bytes[6], bytes[7], bytes[8]);
    assert(bytes.take(4)[0] == bytes[0] && bytes.take(4)[1] == bytes[1] && bytes.take(4)[2]
        == bytes[2] && bytes.take(4)[3] == bytes[3]);
    let fs = parse_spec(bytes)->Ok_0.0;
    assert(frames_bytes(fs).len() as u32 == be32_at(bytes, 5));
    assert(serialize_spec(fs) + parse_spec(bytes)->Ok_0.1 =~= bytes);
}

/// A prefix of the frames never takes more bytes than all of them.
pub proof fn lemma_frames_bytes_prefix(fs: Seq<FrameView>, k: int)
    requires
        0 <= k <= fs.len(),
    ensures
        frames_bytes(fs.take(k)).len() <= frames_bytes(fs).len(),
    decreases fs.len(),
{
    if k < fs.len() {
        assert(fs.drop_last().take(k) =~= fs.take(k));
        lemma_frames_bytes_prefix(fs.drop_last(), k);
    } else {
        assert(fs.take(k) =~= fs);
    }
}

/// Removing frames keeps a document that fits.
pub proof fn lemma_remove_fits(fs: Seq<FrameView>, t: u32)
    requires
        frames_fit(fs),
    ensures
        frames_fit(remove_spec(fs, t)),
        frames_bytes(remove_spec(fs, t)).len() <= frames_bytes(fs).len(),
    decreases fs.len(),
{
    reveal(Seq::filter);
    if fs.len() > 0 {
        let sub = fs.drop_last();
        assert forall|i: int| 0 <= i < sub.len() implies frame_fits(#[trigger] sub[i]) by {
            assert(sub[i] == fs[i]);
        }
        lemma_remove_fits(sub, t);
        let fsub = remove_spec(sub, t);
        if fs.last().type_id != t {
            let out = fsub.push(fs.last());
            assert(out.drop_last() =~= fsub);
            assert(remove_spec(fs, t) == out);
            assert(frame_fits(fs[fs.len() - 1]));
            assert forall|i: int| 0 <= i < out.len() implies frame_fits(#[trigger] out[i]) by {
                if i < fsub.len() {
                    assert(out[i] == fsub[i]);
                }
            }
        } else {
            assert(remove_spec(fs, t) == fsub);
        }
    } else {
        assert(remove_spec(fs, t) =~= fs);
    }
}

pub proof fn lemma_first_unique(fs: Seq<FrameView>, t: u32, i: int)
    requires
        is_first(fs, t, i),
    ensures
        has_type(fs, t),
        first_index(fs, t) == i,
{
    assert(has_type(fs, t)) by {
        assert(fs[i].type_id == t);
    }
    let k = first_index(fs, t);
    assert(is_first(fs, t, k));
    if k < i {
        assert(fs[k].type_id != t);
    } else if i < k {
        assert(fs[i].type_id != t);
    }
}

/// Whether frames fit a tag block; `None` when they take more than a 32-bit
/// length can give.
pub fn encoded_len(frames: &Vec<Frame>) -> (r: Option<u32>)
    ensures
        match r {
            Some(n) => frames_fit(views(frames@)) && n == frames_bytes(views(frames@)).len(),
            None => !frames_fit(views(frames@)),
        },
{
    let ghost fs = views(frames@);
    let mut acc: u32 = 0;
    let mut i: usize = 0;
    assert(frames_bytes(fs.take(0)) =~= Seq::<u8>::empty());
    while i < frames.len()
        invariant
            i <= frames.len(),
            fs == views(frames@),
            acc == frames_bytes(fs.take(i as int)).len(),
            forall|j: int| 0 <= j < i ==> frame_fits(#[trigger] fs[j]),
        decreases frames.len() - i,
    {
        let len = frames[i].payload.len();
        assert(fs.take(i as int + 1).drop_last() =~= fs.take(i as int));
        assert(fs[i as int] == frames@[i as int]@);
        if len > (0xffff_ffffu32 - acc) as usize || (0xffff_ffffu32 - acc) as usize - len < 9 {
            proof {
                lemma_frames_bytes_prefix(fs, i as int + 1);
            }
            return None;
        }
        acc = acc + 9 + len as u32;
        i = i + 1;
    }
    assert(fs.take(i as int) =~= fs);
    Some(acc)
}

/// A change was refused: the tag block would outgrow its 32-bit length field.
#[derive(Clone, Copy, Debug, PartialEq, Eq, Structural)]
pub struct TagTooLarge;

/// The ordered frames of one file's tag block.
#[derive(Debug)]
pub struct TagDocument {
    pub frames: Vec<Frame>,
}

impl View for TagDocument {
    type V = Seq<FrameView>;

    open spec fn view(&self) -> Seq<FrameView> {
        views(self.frames@)
    }
}

impl TagDocument {
    pub open spec fn wf(&self) -> bool {
        frames_fit(self@)
    }

    pub fn new() -> (r: TagDocument)
        ensures
            r@ == Seq::<FrameView>::empty(),
            r.wf(),
    {
        let r = TagDocument { frames: Vec::new() };
        assert(r@ =~= Seq::<FrameView>::empty());
        assert(frames_bytes(r@) =~= Seq::<u8>::empty());
        r
    }

    /// Reads a file's bytes: the tag block becomes a document, what follows it
    /// is handed back untouched.
    pub fn parse(bytes: &Vec<u8>) -> (r: Result<(TagDocument, Vec<u8>), FormatError>)
        ensures
            parse_spec(bytes@) == match r {
                Ok(p) => Ok((p.0@, p.1@)),
                Err(e) => Err(e),
            },
            r matches Ok(p) ==> p.0.wf(),
    {
        let n = bytes.len();
        if n < TAG_HEADER_LEN || bytes[0] != 77u8 || bytes[1] != 84u8 || bytes[2] != 65u8
            || bytes[3] != 71u8 || bytes[4] != TAG_VERSION {
            proof {
                if n >= 9 && bytes@[4] == TAG_VERSION {
                    if bytes@.take(4) == magic() {
                        assert(bytes@.take(4)[0] == bytes@[0]);
                        assert(bytes@.take(4)[1] == bytes@[1]);
                        assert(bytes@.take(4)[2] == bytes@[2]);
                        assert(bytes@.take(4)[3] == bytes@[3]);
                    }
                }
            }
            return Err(FormatError::CorruptHeader);
        }
        assert(bytes@.take(4) =~= magic());
        let block = read_be32(bytes, 5);
        if block as usize > n - TAG_HEADER_LEN {
            return Err(FormatError::TruncatedFrame);
        }
        let end: usize = TAG_HEADER_LEN + block as usize;
        let mut frames: Vec<Frame> = Vec::new();
        let mut pos: usize = TAG_HEADER_LEN;
        assert(views(frames@) =~= Seq::<FrameView>::empty());
        assert(bytes@.subrange(9, end as int) =~= bytes@.subrange(pos as int, end as int));
        while pos < end
            invariant
                9 <= pos <= end <= n == bytes.len(),
                end == 9 + block as int,
                be32_at(bytes@, 5) == block,
                bytes@.take(4) == magic(),
                bytes@[4] == TAG_VERSION,
                decode_frames(bytes@.subrange(9, end as int)) == prepend(
                    views(frames@),
                    decode_frames(bytes@.subrange(pos as int, end as int)),
                ),
            decreases end - pos,
        {
            let ghost rest = bytes@.subrange(pos as int, end as int);
            if end - pos < FRAME_HEADER_LEN {
                assert(decode_frames(rest) == Err::<Seq<FrameView>, FormatError>(
                    FormatError::CorruptFrame,
                ));
                return Err(FormatError::CorruptFrame);
            }
            let len = read_be32(bytes, pos + 4);
            assert(be32_at(rest, 4) == len);
            if len as usize > end - pos - FRAME_HEADER_LEN {
                assert(decode_frames(rest) == Err::<Seq<FrameView>, FormatError>(
                    FormatError::TruncatedFrame,
                ));
                return Err(FormatError::TruncatedFrame);
            }
            let type_id = read_be32(bytes, pos);
            assert(be32_at(rest, 0) == type_id);
            let encoding = bytes[pos + 8];
            let next: usize = pos + FRAME_HEADER_LEN + len as usize;
            let payload = copy_range(bytes, pos + FRAME_HEADER_LEN, next);
            let f = Frame { type_id, encoding, payload };
            proof {
                assert(rest.subrange(9, 9 + len as int) =~= f.payload@);
                assert(rest.subrange(9 + len as int, rest.len() as int) =~= bytes@.subrange(
                    next as int,
                    end as int,
                ));
                lemma_views_push(frames@, f);
                assert(views(frames@) + (seq![f@] + Seq::<FrameView>::empty()) =~= views(frames@).push(f@) + Seq::<FrameView>::empty());
                match decode_frames(bytes@.subrange(next as int, end as int)) {
                    Ok(t) => {
                        assert(views(frames@) + (seq![f@] + t) =~= views(frames@).push(f@) + t);
                    },
                    Err(_) => {},
                }
            }
            frames.push(f);
            pos = next;
        }
        assert(bytes@.subrange(pos as int, end as int) =~= Seq::<u8>::empty());
        assert(views(frames@) + Seq::<FrameView>::empty() =~= views(frames@));
        let trailer = copy_range(bytes, end, n);
        let doc = TagDocument { frames };
        proof {
            lemma_decode_frames_bytes(bytes@.subrange(9, end as int));
        }
        Ok((doc, trailer))
    }

    /// Position of the first frame of type `t`.
    pub fn find_first(&self, t: u32) -> (r: Option<usize>)
        ensures
            match r {
                Some(i) => is_first(self@, t, i as int) && first_index(self@, t) == i,
                None => !has_type(self@, t),
            },
    {
        let mut i: usize = 0;
        while i < self.frames.len()
            invariant
                i <= self.frames.len(),
                forall|j: int| 0 <= j < i ==> (#[trigger] self@[j]).type_id != t,
            decreases self.frames.len() - i,
        {
            assert(self@[i as int] == self.frames@[i as int]@);
            if self.frames[i].type_id == t {
                proof {
                    lemma_first_unique(self@, t, i as int);
                }
                return Some(i);
            }
            i = i + 1;
        }
        None
    }

    /// The first frame of type `t`, if any.
    pub fn get(&self, t: u32) -> (r: Option<&Frame>)
        ensures
            match r {
                Some(f) => get_spec(self@, t) == Some(f@),
                None => get_spec(self@, t) is None,
            },
    {
        match self.find_first(t) {
            Some(i) => Some(&self.frames[i]),
            None => None,
        }
    }

    /// Gives frame type `t` the value `payload`, in the place of its first frame
    /// or at the end. Refused, with nothing changed, where the tag block would
    /// no longer fit its length field.
    pub fn set(&mut self, t: u32, payload: Vec<u8>) -> (r: Result<(), TagTooLarge>)
        requires
            old(self).wf(),
        ensures
            final(self).wf(),
            r is Ok <==> frames_fit(set_spec(old(self)@, t, payload@)),
            r is Ok ==> final(self)@ == set_spec(old(self)@, t, payload@),
            r is Err ==> final(self)@ == old(self)@,
    {
        let f = Frame { type_id: t, encoding: ENCODING_UTF8, payload };
        let ghost fv = f@;
        let mut cand: Vec<Frame> = Vec::new();
        let at = self.find_first(t);
        let mut i: usize = 0;
        assert(views(cand@) =~= views(self.frames@).take(0));
        while i < self.frames.len()
            invariant
                i <= self.frames.len(),
                at matches Some(k) ==> k < self.frames.len(),
                f@ == fv,
                views(cand@) == match at {
                    Some(k) => views(self.frames@).update(k as int, fv).take(i as int),
                    None => views(self.frames@).take(i as int),
                },
            decreases self.frames.len() - i,
        {
            let here = match at {
                Some(k) => k == i,
                None => false,
            };
            let g = if here {
                f.copy()
            } else {
                self.frames[i].copy()
            };
            assert(g@ == views(self.frames@)[i as int] || here);
            proof {
                lemma_views_push(cand@, g);
            }
            cand.push(g);
            i = i + 1;
            proof {
                match at {
                    Some(k) => {
                        assert(views(cand@) =~= views(self.frames@).update(k as int, fv).take(
                            i as int,
                        ));
                    },
                    None => {
                        assert(views(cand@) =~= views(self.frames@).take(i as int));
                    },
                }
            }
        }
        if at.is_none() {
            proof {
                lemma_views_push(cand@, f);
            }
            cand.push(f);
        }
        proof {
            match at {
                Some(k) => {
                    assert(views(cand@) =~= set_spec(old(self)@, t, payload@));
                },
                None => {
                    assert(views(cand@) =~= set_spec(old(self)@, t, payload@));
                },
            }
        }
        match encoded_len(&cand) {
            Some(_) => {
                self.frames = cand;
                Ok(())
            },
            None => Err(TagTooLarge),
        }
    }

    /// Takes out every frame of type `t`; nothing happens where there is none.
    pub fn remove(&mut self, t: u32)
        requires
            old(self).wf(),
        ensures
            final(self).wf(),
            final(self)@ == remove_spec(old(self)@, t),
    {
        let ghost fs = self@;
        let mut kept: Vec<Frame> = Vec::new();
        let mut i: usize = 0;
        proof {
            reveal(Seq::filter);
            assert(fs.take(0) =~= Seq::<FrameView>::empty());
            assert(views(kept@) =~= remove_spec(fs.take(0), t));
        }
        while i < self.frames.len()
            invariant
                i <= self.frames.len(),
                fs == self@,
                views(kept@) == remove_spec(fs.take(i as int), t),
            decreases self.frames.len() - i,
        {
            proof {
                reveal(Seq::filter);
                assert(fs.take(i as int + 1).drop_last() =~= fs.take(i as int));
                assert(fs[i as int] == self.frames@[i as int]@);
            }
            if self.frames[i].type_id != t {
                let g = self.frames[i].copy();
                proof {
                    lemma_views_push(kept@, g);
                }
                kept.push(g);
            }
            i = i + 1;
        }
        assert(fs.take(i as int) =~= fs);
        proof {
            lemma_remove_fits(fs, t);
        }
        self.frames = kept;
    }

    /// The tag block of a document that fits.
    pub fn serialize(&self) -> (r: Vec<u8>)
        requires
            self.wf(),
        ensures
            r@ == serialize_spec(self@),
    {
        let mut body: Vec<u8> = Vec::new();
        let mut i: usize = 0;
        while i < self.frames.len()
            invariant
                i <= self.frames.len(),
                self.wf(),
                body@ == frames_bytes(self@.take(i as int)),
            decreases self.frames.len() - i,
        {
            let f = &self.frames[i];
            proof {
                assert(self@.take(i as int + 1).drop_last() =~= self@.take(i as int));
                assert(self@[i as int] == f@);
                assert(frame_fits(self@[i as int]));
            }
            push_be32(&mut body, f.type_id);
            push_be32(&mut body, f.payload.len() as u32);
            body.push(f.encoding);
            push_all(&mut body, &f.payload);
            assert(body@ =~= frames_bytes(self@.take(i as int)) + encode_frame_spec(f@));
            i = i + 1;
        }
        assert(self@.take(i as int) =~= self@);
        let mut out: Vec<u8> = Vec::new();
        out.push(77u8);
        out.push(84u8);
        out.push(65u8);
        out.push(71u8);
        out.push(TAG_VERSION);
        push_be32(&mut out, body.len() as u32);
        push_all(&mut out, &body);
        assert(out@ =~= serialize_spec(self@));
        out
    }
}

} // verus!
