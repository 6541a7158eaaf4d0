//! The streaming pipeline: walked entries become framed messages, in walker
//! order, with the messages of one entry contiguous.
//!
//! Per entry: unreadable metadata or content-not-resident skips the entry
//! with no messages; a directory yields exactly one `Directory` message; a
//! regular file yields one `FileHeader`, the `FileBody` frames of its
//! compressed content, and one `FileFooter` with the two digests of the whole
//! uncompressed content.  Reading the entry's bytes is I/O and stays with the
//! caller, which hands the content in read chunks.

use vstd::prelude::*;
use vstd::utf8::encode_utf8;
use crate::encoder::{is_lz4_frame, lz4_frame, lz4_unframe, md5_of, sha3_256_of, FileEncoder};
use crate::message::{encode_message, spec_encode, Message};

verus! {

/// One walked entry as the pipeline sees it: the path, what metadata
/// resolution found, and the file's content in read chunks.
pub struct EntryInput {
    pub path: String,
    /// Metadata resolved; when false the entry is skipped entirely.
    pub meta_ok: bool,
    /// Content not locally resident; when true the entry is skipped entirely.
    pub offline: bool,
    /// Regular file (true) or directory (false).
    pub is_file: bool,
    /// The byte count metadata reports.
    pub len: u64,
    /// The file's bytes, in read order; empty for directories.
    pub content: Vec<Vec<u8>>,
}

/// What the pipeline does with one walked entry.
#[derive(Clone, Copy, PartialEq, Eq, Structural, Debug)]
pub enum EntryAction {
    SkipEntry,
    EmitDirectory,
    EmitFile,
}

/// The per-entry decision: unreadable metadata or non-resident content skips
/// the entry; otherwise a directory opens a `Directory` group and a regular
/// file a `FileHeader` group.
pub open spec fn spec_entry_plan(meta_ok: bool, offline: bool, is_file: bool) -> EntryAction {
    if !meta_ok {
        EntryAction::SkipEntry
    } else if offline {
        EntryAction::SkipEntry
    } else if is_file {
        EntryAction::EmitFile
    } else {
        EntryAction::EmitDirectory
    }
}

/// The per-entry decision of the pipeline.
pub fn entry_plan(meta_ok: bool, offline: bool, is_file: bool) -> (r: EntryAction)
    ensures
        r == spec_entry_plan(meta_ok, offline, is_file),
{
    if !meta_ok {
        EntryAction::SkipEntry
    } else if offline {
        EntryAction::SkipEntry
    } else if is_file {
        EntryAction::EmitFile
    } else {
        EntryAction::EmitDirectory
    }
}

/// The views of a chunk list.
pub open spec fn chunk_views(chunks: Seq<Vec<u8>>) -> Seq<Seq<u8>> {
    chunks.map_values(|c: Vec<u8>| c@)
}

/// The concatenation of a chunk list.
pub open spec fn concat_bytes(chunks: Seq<Seq<u8>>) -> Seq<u8>
    decreases chunks.len(),
{
    if chunks.len() == 0 {
        Seq::empty()
    } else {
        concat_bytes(chunks.drop_last()) + chunks.last()
    }
}

/// The concatenated payloads of the `FileBody` messages in a list.
pub open spec fn bodies_payload(msgs: Seq<Message>) -> Seq<u8>
    decreases msgs.len(),
{
    if msgs.len() == 0 {
        Seq::empty()
    } else {
        bodies_payload(msgs.drop_last()) + if msgs.last() is FileBody {
            msgs.last()->FileBody_data@
        } else {
            Seq::<u8>::empty()
        }
    }
}

/// The message group of one regular file with uncompressed content
/// `content`: a header with the path and reported length, `FileBody` frames
/// whose concatenated payloads are exactly the LZ4 frame of the content —
/// which decompresses back to the content — and a footer with the two
/// digests of the content.
pub open spec fn file_group_ok(
    path: Seq<char>,
    len: u64,
    content: Seq<u8>,
    msgs: Seq<Message>,
) -> bool {
    &&& msgs.len() >= 2
    &&& msgs[0] matches Message::FileHeader { path: p, len: l } && p@ == path && l == len
    &&& msgs.last() matches Message::FileFooter { sha256, md5 } && sha256@ == sha3_256_of(
        content,
    ) && md5@ == md5_of(content)
    &&& forall|i: int| 0 < i < msgs.len() - 1 ==> msgs[i] is FileBody
    &&& bodies_payload(msgs.subrange(1, msgs.len() - 1)) == lz4_frame(content)
    &&& lz4_unframe(lz4_frame(content)) == content
    &&& is_lz4_frame(lz4_frame(content))
}

/// The message group of one walked entry.
pub open spec fn entry_group_ok(e: EntryInput, msgs: Seq<Message>) -> bool {
    match spec_entry_plan(e.meta_ok, e.offline, e.is_file) {
        EntryAction::SkipEntry => msgs.len() == 0,
        EntryAction::EmitDirectory => msgs.len() == 1 && (msgs[0] matches Message::Directory {
            path,
        } && path@ == e.path@),
        EntryAction::EmitFile => file_group_ok(
            e.path@,
            e.len,
            concat_bytes(chunk_views(e.content@)),
            msgs,
        ),
    }
}

/// The whole stream: the messages fall into consecutive groups, one per
/// entry, in walker order — never reordered or interleaved across entries.
pub open spec fn stream_ok(entries: Seq<EntryInput>, msgs: Seq<Message>) -> bool
    decreases entries.len(),
{
    if entries.len() == 0 {
        msgs.len() == 0
    } else {
        exists|k: int|
            0 <= k <= msgs.len() && #[trigger] entry_group_ok(entries[0], msgs.take(k))
                && stream_ok(entries.skip(1), msgs.skip(k))
    }
}

/// A well-grouped stream stays well grouped when one more entry's group is
/// appended at its end.
proof fn lemma_stream_ok_append(
    entries: Seq<EntryInput>,
    msgs: Seq<Message>,
    e: EntryInput,
    group: Seq<Message>,
)
    requires
        stream_ok(entries, msgs),
        entry_group_ok(e, group),
    ensures
        stream_ok(entries.push(e), msgs + group),
    decreases entries.len(),
{
    if entries.len() == 0 {
        assert(msgs.len() == 0);
        assert((msgs + group).take(group.len() as int) =~= group);
        assert((msgs + group).skip(group.len() as int) =~= Seq::<Message>::empty());
        assert(entries.push(e)[0] == e);
        assert(entries.push(e).skip(1) =~= Seq::<EntryInput>::empty());
        assert(entry_group_ok(entries.push(e)[0], (msgs + group).take(group.len() as int)));
        assert(stream_ok(entries.push(e).skip(1), (msgs + group).skip(group.len() as int)));
        assert(stream_ok(entries.push(e), msgs + group));
    } else {
        let k = choose|k: int|
            0 <= k <= msgs.len() && #[trigger] entry_group_ok(entries[0], msgs.take(k))
                && stream_ok(entries.skip(1), msgs.skip(k));
        lemma_stream_ok_append(entries.skip(1), msgs.skip(k), e, group);
        assert(entries.skip(1).push(e) =~= entries.push(e).skip(1));
        assert(msgs.skip(k) + group =~= (msgs + group).skip(k));
        assert((msgs + group).take(k) =~= msgs.take(k));
        assert(entries.push(e)[0] == entries[0]);
        assert(entry_group_ok(entries.push(e)[0], (msgs + group).take(k)));
        assert(stream_ok(entries.push(e).skip(1), (msgs + group).skip(k)));
        assert(0 <= k <= (msgs + group).len());
        assert(stream_ok(entries.push(e), msgs + group));
    }
}

/// Round trip: in the message group of one file, the concatenated `FileBody`
/// payloads form one complete compressed frame that decompresses to exactly
/// the file's bytes, and the footer holds the two digests of those same
/// bytes — recomputing the digests over the decompressed result matches the
/// footer.
pub proof fn lemma_round_trip(path: Seq<char>, len: u64, content: Seq<u8>, msgs: Seq<Message>)
    requires
        file_group_ok(path, len, content, msgs),
    ensures
        is_lz4_frame(bodies_payload(msgs.subrange(1, msgs.len() - 1))),
        lz4_unframe(bodies_payload(msgs.subrange(1, msgs.len() - 1))) == content,
        msgs.last()->FileFooter_sha256@ == sha3_256_of(
            lz4_unframe(bodies_payload(msgs.subrange(1, msgs.len() - 1))),
        ),
        msgs.last()->FileFooter_md5@ == md5_of(
            lz4_unframe(bodies_payload(msgs.subrange(1, msgs.len() - 1))),
        ),
{
}

/// The messages of one regular file: header, the compressed content in
/// `FileBody` frames (one per input chunk, then one final drain), and the
/// footer with both digests of the uncompressed content.
pub fn file_messages(path: &String, len: u64, content: &Vec<Vec<u8>>) -> (msgs: Vec<Message>)
    ensures
        file_group_ok(path@, len, concat_bytes(chunk_views(content@)), msgs@),
        forall|i: int| 0 <= i < msgs@.len() ==> (#[trigger] msgs@[i]).wf(),
{
    let path_bytes = path.as_str().as_bytes_vec();
    let path_byte_count = path_bytes.len();
    proof {
        assert(encode_utf8(path@).len() == path_byte_count);
        assert(encode_utf8(path@).len() <= u64::MAX);
    }
    let mut msgs: Vec<Message> = Vec::new();
    msgs.push(Message::FileHeader { path: path.clone(), len });

    let mut enc = FileEncoder::new();
    let mut i: usize = 0;
    proof {
        assert(concat_bytes(chunk_views(content@).take(0)) =~= Seq::<u8>::empty());
        assert(bodies_payload(msgs@.subrange(1, msgs@.len() as int)) =~= Seq::<u8>::empty());
    }
    while i < content.len()
        invariant
            i <= content@.len(),
            enc.wf(),
            enc.content() == concat_bytes(chunk_views(content@).take(i as int)),
            enc.emitted() == bodies_payload(msgs@.subrange(1, msgs@.len() as int)),
            msgs@.len() == i + 1,
            msgs@[0] matches Message::FileHeader { path: p, len: l } && p@ == path@ && l == len,
            forall|j: int| 0 < j < msgs@.len() ==> msgs@[j] is FileBody,
            forall|j: int| 0 <= j < msgs@.len() ==> (#[trigger] msgs@[j]).wf(),
        decreases content@.len() - i,
    {
        let ghost msgs_before = msgs@;
        let data = enc.absorb(&content[i]);
        let data_len = data.len();
        msgs.push(Message::FileBody { data });
        i = i + 1;
        proof {
            let cv = chunk_views(content@);
            assert(cv.take(i as int).drop_last() =~= cv.take(i - 1));
            assert(cv.take(i as int).last() == content@[i - 1]@);
            assert(enc.content() =~= concat_bytes(cv.take(i as int)));
            let all = msgs@.subrange(1, msgs@.len() as int);
            assert(all.drop_last() =~= msgs_before.subrange(1, msgs_before.len() as int));
            assert(all.last() == msgs@.last());
            assert(enc.emitted() =~= bodies_payload(all));
        }
    }
    proof {
        assert(chunk_views(content@).take(content@.len() as int) =~= chunk_views(content@));
    }
    let ghost msgs_mid = msgs@;
    let (residual, sha_digest, md5_digest) = enc.finish();
    let ghost whole = enc.content();
    let residual_len = residual.len();
    msgs.push(Message::FileBody { data: residual });
    let ghost msgs_res = msgs@;
    msgs.push(Message::FileFooter { sha256: sha_digest, md5: md5_digest });
    proof {
        let bodies = msgs@.subrange(1, msgs@.len() - 1);
        assert(bodies.drop_last() =~= msgs_mid.subrange(1, msgs_mid.len() as int));
        assert(bodies.last() == msgs_res.last());
        assert(bodies_payload(bodies) =~= lz4_frame(whole));
        assert(msgs@.last() matches Message::FileFooter { sha256, md5 } && sha256@
            == sha3_256_of(whole) && md5@ == md5_of(whole));
        assert(forall|j: int| 0 < j < msgs@.len() - 1 ==> msgs@[j] is FileBody);
        assert(msgs@[0] == msgs_mid[0]);
    }
    msgs
}

/// One `Directory` message for a directory entry.
pub fn directory_message(path: &String) -> (m: Message)
    ensures
        m matches Message::Directory { path: p } && p@ == path@,
        m.wf(),
{
    let path_bytes = path.as_str().as_bytes_vec();
    let path_byte_count = path_bytes.len();
    proof {
        assert(encode_utf8(path@).len() == path_byte_count);
    }
    Message::Directory { path: path.clone() }
}

/// The whole capture as messages: each entry's group in walker order, with
/// the messages of one entry contiguous.  Entries whose metadata failed to
/// resolve, and entries whose content is not locally resident, produce no
/// messages at all.
pub fn build_stream(entries: &Vec<EntryInput>) -> (msgs: Vec<Message>)
    ensures
        stream_ok(entries@, msgs@),
        forall|i: int| 0 <= i < msgs@.len() ==> (#[trigger] msgs@[i]).wf(),
{
    let mut msgs: Vec<Message> = Vec::new();
    let mut i: usize = 0;
    proof {
        assert(stream_ok(entries@.take(0), msgs@));
    }
    while i < entries.len()
        invariant
            i <= entries@.len(),
            stream_ok(entries@.take(i as int), msgs@),
            forall|j: int| 0 <= j < msgs@.len() ==> (#[trigger] msgs@[j]).wf(),
        decreases entries@.len() - i,
    {
        let ghost msgs_before = msgs@;
        let entry = &entries[i];
        let ghost group_seq: Seq<Message>;
        match entry_plan(entry.meta_ok, entry.offline, entry.is_file) {
            EntryAction::SkipEntry => {
                proof {
                    group_seq = Seq::<Message>::empty();
                    assert(entry_group_ok(entries@[i as int], group_seq));
                    assert(msgs@ =~= msgs_before + group_seq);
                }
            },
            EntryAction::EmitDirectory => {
                let m = directory_message(&entry.path);
                msgs.push(m);
                proof {
                    group_seq = seq![m];
                    assert(entry_group_ok(entries@[i as int], group_seq));
                    assert(msgs@ =~= msgs_before + group_seq);
                }
            },
            EntryAction::EmitFile => {
                let mut group = file_messages(&entry.path, entry.len, &entry.content);
                proof {
                    group_seq = group@;
                    assert(entry_group_ok(entries@[i as int], group_seq));
                }
                msgs.append(&mut group);
                proof {
                    assert(msgs@ =~= msgs_before + group_seq);
                }
            },
        }
        proof {
            lemma_stream_ok_append(
                entries@.take(i as int),
                msgs_before,
                entries@[i as int],
                group_seq,
            );
            assert(entries@.take(i as int).push(entries@[i as int]) =~= entries@.take(i + 1));
        }
        i = i + 1;
    }
    proof {
        assert(entries@.take(entries@.len() as int) =~= entries@);
    }
    msgs
}

/// Each message encoded as one frame, in order: the concatenable byte
/// sequence of the whole capture.
pub fn encode_frames(msgs: &Vec<Message>) -> (frames: Vec<Vec<u8>>)
    requires
        forall|i: int| 0 <= i < msgs@.len() ==> (#[trigger] msgs@[i]).wf(),
    ensures
        frames@.len() == msgs@.len(),
        forall|i: int| 0 <= i < msgs@.len() ==> (#[trigger] frames@[i]@) == spec_encode(msgs@[i]),
{
    let mut frames: Vec<Vec<u8>> = Vec::new();
    let mut i: usize = 0;
    while i < msgs.len()
        invariant
            i <= msgs@.len(),
            frames@.len() == i,
            forall|j: int| 0 <= j < msgs@.len() ==> (#[trigger] msgs@[j]).wf(),
            forall|j: int| 0 <= j < i ==> (#[trigger] frames@[j]@) == spec_encode(msgs@[j]),
        decreases msgs@.len() - i,
    {
        let frame = encode_message(&msgs[i]);
        frames.push(frame);
        i = i + 1;
    }
    frames
}

} // verus!
