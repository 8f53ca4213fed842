//! The generic binary strategy: deltas for changed files of any kind.
//!
//! A delta is a stream of segments. Each segment starts with three fields of
//! eight bytes: the length of its add bytes and the length of its copy
//! bytes, both little-endian, and a seek, little-endian with the sign in
//! the top bit. Then come the add bytes, which are added byte-wise to the
//! old content at the read position, and the copy bytes, which are taken as
//! they stand. After a segment the read position moves on by the seek.
//!
//! The matches between the old and the new content are found by `bidiff`,
//! and a stream is replayed by `bsdiff`. No delta leaves this module before
//! its replay against the old content has given the new content; where the
//! replay fails, or the stream is longer than the new content with one
//! header, the delta is the single segment that copies the new content.

use vstd::prelude::*;
use vstd::bytes::{lemma_auto_spec_u64_to_from_le_bytes, spec_u64_to_le_bytes, u64_to_le_bytes};
use crate::bytes::{append_bytes, copy_range, same_bytes, starts_with};
use crate::errors::{ErrorView, PatchError};

verus! {

/// Bytes of the three fields that head a segment.
pub const SEGMENT_HEADER_LEN: usize = 24;

/// The longest old content that the matcher indexes: its suffix sorter
/// takes texts of fewer than 2^31 - 1 bytes.
pub const MAX_INDEXED_LEN: usize = 0x7fff_fffe;

/// One segment of a delta.
#[derive(Debug, Clone, PartialEq, Eq)]
pub struct Segment {
    pub add: Vec<u8>,
    pub copy: Vec<u8>,
    pub seek: i64,
}

impl View for Segment {
    type V = (Seq<u8>, Seq<u8>, int);

    open spec fn view(&self) -> (Seq<u8>, Seq<u8>, int) {
        (self.add@, self.copy@, self.seek as int)
    }
}

/// The segments of `segments`, each taken by its view, in order.
pub open spec fn segments_view(segments: Seq<Segment>) -> Seq<(Seq<u8>, Seq<u8>, int)> {
    Seq::new(segments.len(), |i: int| segments[i]@)
}

/// The segments that the matcher finds for a pair of contents, each as its
/// add bytes, its copy bytes and its seek.
pub uninterp spec fn bidiff_segments(old: Seq<u8>, new: Seq<u8>) -> Seq<(Seq<u8>, Seq<u8>, int)>;

/// What the patcher makes of an old content and a stream, `None` where it
/// rejects the stream.
pub uninterp spec fn bspatch_of(old: Seq<u8>, patch: Seq<u8>) -> Option<Seq<u8>>;

/// Appends the segment made of copies of the three parts.
fn collect_segment(out: &mut Vec<Segment>, add: &[u8], copy: &[u8], seek: i64)
    ensures
        segments_view(final(out)@) == segments_view(old(out)@).push((add@, copy@, seek as int)),
{
    let segment = Segment {
        add: copy_range(add, 0, add.len()),
        copy: copy_range(copy, 0, copy.len()),
        seek,
    };
    assert(segment.add@ =~= add@);
    assert(segment.copy@ =~= copy@);
    out.push(segment);
    assert(segments_view(out@) =~= segments_view(old(out)@).push((add@, copy@, seek as int)));
}

/// `bidiff::diff` with default parameters, its matches turned into
/// segments by `bidiff::Translator`: the segments for the pair, in order.
/// The crate panics on an empty old content, in which its index has
/// nothing to find, and on one of 2^31 - 1 bytes or more, which its suffix
/// sorter refuses; so the old content is neither empty nor longer than
/// [`MAX_INDEXED_LEN`].
#[verifier::external_body]
fn bidiff_controls(old: &[u8], new: &[u8]) -> (segments: Vec<Segment>)
    requires
        0 < old@.len() <= MAX_INDEXED_LEN,
    ensures
        segments_view(segments@) == bidiff_segments(old@, new@),
{
    let mut out: Vec<Segment> = Vec::new();
    let mut translator = bidiff::Translator::new(
        old,
        new,
        |c: &bidiff::Control| -> Result<(), std::io::Error> {
            collect_segment(&mut out, c.add, c.copy, c.seek);
            Ok(())
        },
    );
    let _ = bidiff::diff(old, new, &bidiff::DiffParams::default(), |m| translator.translate(m));
    let _ = translator.close();
    out
}

/// `bsdiff::patch`, reading the stream from `patch`: the content that the
/// patcher writes, or `None` where it reports an error.
#[verifier::external_body]
fn bspatch(old: &[u8], patch: &[u8]) -> (new: Option<Vec<u8>>)
    ensures
        match new {
            Some(n) => bspatch_of(old@, patch@) == Some(n@),
            None => bspatch_of(old@, patch@) is None,
        },
{
    let mut new: Vec<u8> = Vec::new();
    let mut reader: &[u8] = patch;
    match bsdiff::patch(old, &mut reader, &mut new) {
        Ok(()) => Some(new),
        Err(_) => None,
    }
}

/// The eight bytes of a length field.
pub open spec fn length_field(len: int) -> Seq<u8> {
    spec_u64_to_le_bytes(len as u64)
}

/// The eight bytes of a seek field: the magnitude, with the top bit set
/// for a negative seek.
pub open spec fn seek_field(seek: int) -> Seq<u8> {
    if seek >= 0 {
        spec_u64_to_le_bytes(seek as u64)
    } else {
        spec_u64_to_le_bytes((0x8000_0000_0000_0000 - seek) as u64)
    }
}

/// The bytes of one segment.
pub open spec fn segment_bytes(segment: (Seq<u8>, Seq<u8>, int)) -> Seq<u8> {
    length_field(segment.0.len() as int) + length_field(segment.1.len() as int) + seek_field(
        segment.2,
    ) + segment.0 + segment.1
}

/// The stream of a list of segments.
pub open spec fn stream_of(segments: Seq<(Seq<u8>, Seq<u8>, int)>) -> Seq<u8>
    decreases segments.len(),
{
    if segments.len() == 0 {
        Seq::empty()
    } else {
        stream_of(segments.drop_last()) + segment_bytes(segments.last())
    }
}

/// Every seek has a magnitude that fits its field.
pub open spec fn representable(segments: Seq<(Seq<u8>, Seq<u8>, int)>) -> bool {
    forall|i: int| 0 <= i < segments.len() ==> (#[trigger] segments[i]).2 > i64::MIN
}

/// The header of the one segment that copies `len` bytes.
pub open spec fn insert_header(len: int) -> Seq<u8> {
    length_field(0) + length_field(len) + seek_field(0)
}

/// The stream of the one segment that copies all of `new`.
pub open spec fn insert_only(new: Seq<u8>) -> Seq<u8> {
    insert_header(new.len() as int) + new
}

/// `patch` is one segment that copies what follows its header.
pub open spec fn is_insert_only(patch: Seq<u8>) -> bool {
    patch.len() >= SEGMENT_HEADER_LEN && patch.take(SEGMENT_HEADER_LEN as int) == insert_header(
        patch.len() - SEGMENT_HEADER_LEN,
    )
}

/// The content that a stream gives when replayed against `old`: the
/// copied bytes for a stream of one copying segment, and for any other
/// stream what the patcher makes of it.
pub open spec fn replay(old: Seq<u8>, patch: Seq<u8>) -> Option<Seq<u8>> {
    if is_insert_only(patch) {
        Some(patch.skip(SEGMENT_HEADER_LEN as int))
    } else {
        bspatch_of(old, patch)
    }
}

/// The stream of the matcher's segments, where the old content can be
/// indexed and every seek fits its field.
pub open spec fn matched_stream(old: Seq<u8>, new: Seq<u8>) -> Option<Seq<u8>> {
    if 0 < old.len() <= MAX_INDEXED_LEN && representable(bidiff_segments(old, new)) {
        Some(stream_of(bidiff_segments(old, new)))
    } else {
        None
    }
}

/// The choice between the matcher's stream and the copying segment, given
/// what the replay of the matcher's stream rebuilt: the matcher's stream
/// where there is one that is no longer than the copying segment and
/// rebuilds the new content, the copying segment everywhere else.
pub open spec fn selected(matched: Option<Seq<u8>>, rebuilt: Option<Seq<u8>>, new: Seq<u8>) -> Seq<
    u8,
> {
    if matched is Some && matched->0.len() <= new.len() + SEGMENT_HEADER_LEN && rebuilt == Some(
        new,
    ) {
        matched->0
    } else {
        insert_only(new)
    }
}

/// What the replay of the matcher's stream rebuilds.
pub open spec fn rebuilt_from(old: Seq<u8>, matched: Option<Seq<u8>>) -> Option<Seq<u8>> {
    match matched {
        Some(stream) => replay(old, stream),
        None => None,
    }
}

/// The generic delta that leads from `old` to `new`.
pub open spec fn generic_delta(old: Seq<u8>, new: Seq<u8>) -> Seq<u8> {
    selected(matched_stream(old, new), rebuilt_from(old, matched_stream(old, new)), new)
}

/// The stream of one copying segment replays to what it copies.
pub proof fn lemma_insert_only_replays(old: Seq<u8>, new: Seq<u8>)
    ensures
        insert_only(new).len() == new.len() + SEGMENT_HEADER_LEN,
        is_insert_only(insert_only(new)),
        replay(old, insert_only(new)) == Some(new),
{
    lemma_auto_spec_u64_to_from_le_bytes();
    let stream = insert_only(new);
    assert(insert_header(new.len() as int).len() == 24);
    assert(stream.take(SEGMENT_HEADER_LEN as int) =~= insert_header(new.len() as int));
    assert(stream.skip(SEGMENT_HEADER_LEN as int) =~= new);
}

/// Replaying the generic delta of a pair against the old content gives the
/// new content, and the delta is never longer than the new content with
/// one segment header. For equal contents this says that the content is
/// rebuilt exactly from a delta of bounded size.
pub proof fn lemma_generic_round_trip(old: Seq<u8>, new: Seq<u8>)
    ensures
        replay(old, generic_delta(old, new)) == Some(new),
        generic_delta(old, new).len() <= new.len() + SEGMENT_HEADER_LEN,
{
    lemma_insert_only_replays(old, new);
}

/// The eight bytes of a seek.
fn seek_bytes(seek: i64) -> (field: Vec<u8>)
    requires
        seek > i64::MIN,
    ensures
        field@ == seek_field(seek as int),
{
    if seek >= 0 {
        u64_to_le_bytes(seek as u64)
    } else {
        let magnitude: u64 = (-seek) as u64;
        u64_to_le_bytes(0x8000_0000_0000_0000u64 + magnitude)
    }
}

/// Appends the bytes of one segment to `out`.
fn push_segment(out: &mut Vec<u8>, add: &[u8], copy: &[u8], seek: i64)
    requires
        seek > i64::MIN,
    ensures
        final(out)@ == old(out)@ + segment_bytes((add@, copy@, seek as int)),
{
    let add_len = u64_to_le_bytes(add.len() as u64);
    let copy_len = u64_to_le_bytes(copy.len() as u64);
    let seek_part = seek_bytes(seek);
    append_bytes(out, add_len.as_slice());
    append_bytes(out, copy_len.as_slice());
    append_bytes(out, seek_part.as_slice());
    append_bytes(out, add);
    append_bytes(out, copy);
    assert(out@ =~= old(out)@ + segment_bytes((add@, copy@, seek as int)));
}

/// Lays a list of segments out as a stream. `None` where a seek does not
/// fit its field.
pub fn encode_segments(segments: &Vec<Segment>) -> (stream: Option<Vec<u8>>)
    ensures
        match stream {
            Some(s) => representable(segments_view(segments@)) && s@ == stream_of(
                segments_view(segments@),
            ),
            None => !representable(segments_view(segments@)),
        },
{
    let ghost all = segments_view(segments@);
    let mut out: Vec<u8> = Vec::new();
    let mut i: usize = 0;
    assert(all.take(0) =~= Seq::empty());
    while i < segments.len()
        invariant
            i <= segments.len(),
            all == segments_view(segments@),
            representable(all.take(i as int)),
            out@ == stream_of(all.take(i as int)),
        decreases segments.len() - i,
    {
        let segment = &segments[i];
        if segment.seek == i64::MIN {
            assert(all[i as int].2 == i64::MIN);
            return None;
        }
        let ghost now = all.take(i + 1);
        assert(now.drop_last() =~= all.take(i as int));
        assert(now.last() == segment@);
        push_segment(&mut out, segment.add.as_slice(), segment.copy.as_slice(), segment.seek);
        assert forall|k: int| 0 <= k < now.len() implies (#[trigger] now[k]).2 > i64::MIN by {
            if k < i {
                assert(all.take(i as int)[k] == now[k]);
            }
        }
        i += 1;
    }
    assert(all.take(segments.len() as int) =~= all);
    Some(out)
}

/// The stream of the one segment that copies all of `new`.
pub fn insert_only_stream(new: &[u8]) -> (stream: Vec<u8>)
    ensures
        stream@ == insert_only(new@),
{
    let mut out: Vec<u8> = Vec::new();
    let empty: Vec<u8> = Vec::new();
    push_segment(&mut out, empty.as_slice(), new, 0);
    assert(out@ =~= insert_only(new@));
    out
}

/// Replays a stream against the old content. `None` where the stream is
/// rejected.
pub fn replay_stream(old: &[u8], patch: &[u8]) -> (new: Option<Vec<u8>>)
    ensures
        match new {
            Some(n) => replay(old@, patch@) == Some(n@),
            None => replay(old@, patch@) is None,
        },
{
    if patch.len() >= SEGMENT_HEADER_LEN {
        let copied = patch.len() - SEGMENT_HEADER_LEN;
        let mut expected: Vec<u8> = Vec::new();
        let zero = u64_to_le_bytes(0);
        let len = u64_to_le_bytes(copied as u64);
        append_bytes(&mut expected, zero.as_slice());
        append_bytes(&mut expected, len.as_slice());
        append_bytes(&mut expected, zero.as_slice());
        proof {
            lemma_auto_spec_u64_to_from_le_bytes();
            assert(expected@ =~= insert_header(copied as int));
            assert(expected@.len() == 24);
            if expected@.is_prefix_of(patch@) {
                assert(patch@.take(24) =~= expected@);
            }
            if patch@.take(24) == expected@ {
                assert(expected@ =~= patch@.subrange(0, 24));
            }
        }
        if starts_with(patch, expected.as_slice()) {
            let new = copy_range(patch, SEGMENT_HEADER_LEN, patch.len());
            assert(new@ =~= patch@.skip(SEGMENT_HEADER_LEN as int));
            return Some(new);
        }
    }
    bspatch(old, patch)
}

/// The matcher's stream for a pair, where there is one.
fn matched(old: &[u8], new: &[u8]) -> (stream: Option<Vec<u8>>)
    ensures
        match stream {
            Some(s) => matched_stream(old@, new@) == Some(s@),
            None => matched_stream(old@, new@) is None,
        },
{
    if old.len() == 0 || old.len() > MAX_INDEXED_LEN {
        return None;
    }
    let segments = bidiff_controls(old, new);
    encode_segments(&segments)
}

/// A byte buffer that may be absent, taken by its view.
pub open spec fn bytes_view(bytes: Option<Vec<u8>>) -> Option<Seq<u8>> {
    match bytes {
        Some(b) => Some(b@),
        None => None,
    }
}

/// Chooses the delta for `new`: `matched` where it is present, no longer
/// than the copying segment, and `rebuilt` is `new`; the copying segment
/// everywhere else.
pub fn select_delta(matched: Option<Vec<u8>>, rebuilt: Option<Vec<u8>>, new: &[u8]) -> (patch: Vec<
    u8,
>)
    ensures
        patch@ == selected(bytes_view(matched), bytes_view(rebuilt), new@),
{
    match (matched, rebuilt) {
        (Some(stream), Some(content)) => {
            let fits = stream.len() < SEGMENT_HEADER_LEN || stream.len() - SEGMENT_HEADER_LEN
                <= new.len();
            if fits && same_bytes(content.as_slice(), new) {
                stream
            } else {
                insert_only_stream(new)
            }
        },
        _ => insert_only_stream(new),
    }
}

/// Computes the generic delta that leads from `old` to `new`.
///
/// The delta replays to `new` against `old`, and it is at most one segment
/// header longer than `new`.
pub fn generic_diff(old: &[u8], new: &[u8]) -> (patch: Vec<u8>)
    ensures
        patch@ == generic_delta(old@, new@),
        replay(old@, patch@) == Some(new@),
        patch@.len() <= new@.len() + SEGMENT_HEADER_LEN,
{
    proof {
        lemma_generic_round_trip(old@, new@);
    }
    let stream = matched(old, new);
    let rebuilt = match &stream {
        Some(s) => replay_stream(old, s.as_slice()),
        None => None,
    };
    select_delta(stream, rebuilt, new)
}

/// Rebuilds the new content of a file from its old content and a generic
/// delta. `CorruptPackage` exactly where the replay rejects the delta.
pub fn patch_file(old: &[u8], patch: &[u8]) -> (r: Result<Vec<u8>, PatchError>)
    ensures
        match r {
            Ok(new) => replay(old@, patch@) == Some(new@),
            Err(e) => replay(old@, patch@) is None && e@ == ErrorView::CorruptPackage,
        },
{
    match replay_stream(old, patch) {
        Some(new) => Ok(new),
        None => Err(PatchError::CorruptPackage),
    }
}

} // verus!
