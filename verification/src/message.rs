//! The wire protocol: self-describing binary frames.
//!
//! Each frame is a discriminant tag followed by the variant's fields;
//! variable-length fields carry a little-endian 64-bit length prefix, so a
//! streaming decoder needs no look-ahead.  Serialization is a function of the
//! message's values alone, never of an in-memory layout.

use vstd::prelude::*;
use vstd::bytes::{
    lemma_auto_spec_u64_to_from_le_bytes, spec_u64_from_le_bytes, spec_u64_to_le_bytes,
    u64_from_le_bytes, u64_to_le_bytes,
};
use vstd::utf8::{decode_utf8, decode_utf8_encode_utf8, encode_utf8, encode_utf8_valid_utf8,
    valid_utf8};
use vstd::string::StringSliceAdditionalSpecFns;

verus! {

/// One wire message.  A `FileHeader` opens a file's message group, followed
/// by zero or more `FileBody` frames and exactly one `FileFooter`; a
/// `Directory` group has no further frames.  `FileBody` payloads for one
/// file, concatenated in emission order, form that file's whole compressed
/// representation.
pub enum Message {
    FileHeader { path: String, len: u64 },
    FileBody { data: Vec<u8> },
    FileFooter { sha256: Vec<u8>, md5: Vec<u8> },
    Directory { path: String },
}

impl Message {
    /// Fields fit their wire encoding: variable fields fit a 64-bit length,
    /// digests have their fixed sizes.
    pub open spec fn wf(&self) -> bool {
        match *self {
            Message::FileHeader { path, len } => encode_utf8(path@).len() <= u64::MAX,
            Message::FileBody { data } => data@.len() <= u64::MAX,
            Message::FileFooter { sha256, md5 } => sha256@.len() == 32 && md5@.len() == 16,
            Message::Directory { path } => encode_utf8(path@).len() <= u64::MAX,
        }
    }
}

/// The frame encoding of a message: a tag byte, then the fields, with
/// variable-length fields preceded by their byte count, little-endian.
pub open spec fn spec_encode(m: Message) -> Seq<u8> {
    match m {
        Message::FileHeader { path, len } => seq![1u8] + spec_u64_to_le_bytes(len)
            + spec_u64_to_le_bytes(encode_utf8(path@).len() as u64) + encode_utf8(path@),
        Message::FileBody { data } => seq![2u8] + spec_u64_to_le_bytes(data@.len() as u64)
            + data@,
        Message::FileFooter { sha256, md5 } => seq![3u8] + sha256@ + md5@,
        Message::Directory { path } => seq![4u8] + spec_u64_to_le_bytes(
            encode_utf8(path@).len() as u64,
        ) + encode_utf8(path@),
    }
}

/// Whether `prefix` is a prefix of `s`.
pub open spec fn starts_with_bytes(s: Seq<u8>, prefix: Seq<u8>) -> bool {
    prefix.len() <= s.len() && s.take(prefix.len() as int) == prefix
}

/// Appends the bytes of `src` to `dst`.
fn append_bytes(dst: &mut Vec<u8>, src: &Vec<u8>)
    ensures
        final(dst)@ == old(dst)@ + src@,
{
    let mut i: usize = 0;
    while i < src.len()
        invariant
            i <= src@.len(),
            dst@ == old(dst)@ + src@.take(i as int),
        decreases src@.len() - i,
    {
        dst.push(src[i]);
        i = i + 1;
        proof {
            assert(old(dst)@ + src@.take(i as int) =~= (old(dst)@ + src@.take(i - 1)).push(
                src@[i - 1],
            ));
        }
    }
    proof {
        assert(src@.take(src@.len() as int) =~= src@);
    }
}

/// The bytes of `buf` from `from` (inclusive) to `to` (exclusive).
fn copy_range(buf: &Vec<u8>, from: usize, to: usize) -> (r: Vec<u8>)
    requires
        from <= to <= buf@.len(),
    ensures
        r@ == buf@.subrange(from as int, to as int),
{
    let mut r: Vec<u8> = Vec::new();
    let mut i: usize = from;
    while i < to
        invariant
            from <= i <= to <= buf@.len(),
            r@ == buf@.subrange(from as int, i as int),
        decreases to - i,
    {
        r.push(buf[i]);
        i = i + 1;
        proof {
            assert(buf@.subrange(from as int, i as int) =~= buf@.subrange(
                from as int,
                i - 1,
            ).push(buf@[i - 1]));
        }
    }
    r
}

/// The little-endian 64-bit value at `at`.
fn read_u64(buf: &Vec<u8>, at: usize) -> (x: u64)
    requires
        at + 8 <= buf@.len(),
    ensures
        x == spec_u64_from_le_bytes(buf@.subrange(at as int, at + 8)),
{
    let n = buf.len();
    let sub = copy_range(buf, at, at + 8);
    u64_from_le_bytes(sub.as_slice())
}

/// Relies on std's `String::from_utf8`: accepts exactly valid UTF-8 and
/// returns the string those bytes encode.
#[verifier::external_body]
fn string_from_utf8(bytes: Vec<u8>) -> (r: Option<String>)
    ensures
        r matches Some(s) ==> valid_utf8(bytes@) && s@ == decode_utf8(bytes@),
        r is None ==> !valid_utf8(bytes@),
{
    String::from_utf8(bytes).ok()
}

/// Encodes one message as one frame.
pub fn encode_message(m: &Message) -> (r: Vec<u8>)
    requires
        m.wf(),
    ensures
        r@ == spec_encode(*m),
{
    let mut r: Vec<u8> = Vec::new();
    match m {
        Message::FileHeader { path, len } => {
            r.push(1u8);
            let len_bytes = u64_to_le_bytes(*len);
            append_bytes(&mut r, &len_bytes);
            let path_bytes = path.as_str().as_bytes_vec();
            proof {
                assert(path_bytes@ == encode_utf8(path@));
            }
            let plen_bytes = u64_to_le_bytes(path_bytes.len() as u64);
            append_bytes(&mut r, &plen_bytes);
            append_bytes(&mut r, &path_bytes);
            proof {
                assert(r@ =~= spec_encode(*m));
            }
        },
        Message::FileBody { data } => {
            r.push(2u8);
            let dlen_bytes = u64_to_le_bytes(data.len() as u64);
            append_bytes(&mut r, &dlen_bytes);
            append_bytes(&mut r, data);
            proof {
                assert(r@ =~= spec_encode(*m));
            }
        },
        Message::FileFooter { sha256, md5 } => {
            r.push(3u8);
            append_bytes(&mut r, sha256);
            append_bytes(&mut r, md5);
            proof {
                assert(r@ =~= spec_encode(*m));
            }
        },
        Message::Directory { path } => {
            r.push(4u8);
            let path_bytes = path.as_str().as_bytes_vec();
            proof {
                assert(path_bytes@ == encode_utf8(path@));
            }
            let plen_bytes = u64_to_le_bytes(path_bytes.len() as u64);
            append_bytes(&mut r, &plen_bytes);
            append_bytes(&mut r, &path_bytes);
            proof {
                assert(r@ =~= spec_encode(*m));
            }
        },
    }
    r
}

/// Two equal-length prefixes of the same buffer agree on every byte range.
proof fn lemma_prefix_range(s: Seq<u8>, enc: Seq<u8>, a: int, b: int)
    requires
        starts_with_bytes(s, enc),
        0 <= a <= b <= enc.len(),
    ensures
        s.subrange(a, b) == enc.subrange(a, b),
{
    assert(s.subrange(a, b) =~= enc.subrange(a, b)) by {
        assert(forall|i: int| 0 <= i < enc.len() ==> s[i] == #[trigger] enc[i]) by {
            assert(forall|i: int|
                0 <= i < enc.len() ==> s.take(enc.len() as int)[i] == #[trigger] enc[i]);
        }
    }
}

/// Decodes the frame that starts at `start`.  Returns the message and the
/// position just past its frame, or `None` when no well-formed message is
/// encoded there.
#[verifier::rlimit(100)]
#[verifier::spinoff_prover]
pub fn decode_message(buf: &Vec<u8>, start: usize) -> (r: Option<(Message, usize)>)
    requires
        start <= buf@.len(),
    ensures
        r matches Some(p) ==> {
            &&& start < p.1 <= buf@.len()
            &&& p.0.wf()
            &&& spec_encode(p.0) == buf@.subrange(start as int, p.1 as int)
        },
        r is None ==> forall|m: Message|
            m.wf() ==> !starts_with_bytes(buf@.skip(start as int), #[trigger] spec_encode(m)),
{
    broadcast use encode_utf8_valid_utf8;
    broadcast use decode_utf8_encode_utf8;

    let n = buf.len();
    let ghost s = buf@.skip(start as int);
    proof {
        lemma_auto_spec_u64_to_from_le_bytes();
        assert(s.len() == n - start);
    }
    let avail = n - start;
    if avail == 0 {
        proof {
            assert forall|m: Message| m.wf() implies !starts_with_bytes(
                s,
                #[trigger] spec_encode(m),
            ) by {
                assert(spec_encode(m).len() >= 1);
            }
        }
        return None;
    }
    let tag = buf[start];
    if tag == 1 {
        // FileHeader: tag, len, path length, path bytes
        if avail < 17 {
            proof {
                assert forall|m: Message| m.wf() implies !starts_with_bytes(
                    s,
                    #[trigger] spec_encode(m),
                ) by {
                    if starts_with_bytes(s, spec_encode(m)) {
                        assert(s[0] == spec_encode(m)[0]) by {
                            lemma_prefix_range(s, spec_encode(m), 0, 1);
                            assert(s.subrange(0, 1)[0] == spec_encode(m).subrange(0, 1)[0]);
                        }
                        match m {
                            Message::FileHeader { path, len } => {
                                assert(spec_encode(m).len() >= 17);
                            },
                            Message::FileBody { data } => {
                                assert(spec_encode(m)[0] == 2);
                            },
                            Message::FileFooter { sha256, md5 } => {
                                assert(spec_encode(m)[0] == 3);
                            },
                            Message::Directory { path } => {
                                assert(spec_encode(m)[0] == 4);
                            },
                        }
                    }
                }
            }
            return None;
        }
        let len_v = read_u64(buf, start + 1);
        let plen = read_u64(buf, start + 9);
        proof {
            assert(buf@.subrange(start + 1, start + 9) =~= s.subrange(1, 9));
            assert(buf@.subrange(start + 9, start + 17) =~= s.subrange(9, 17));
        }
        if plen > (avail - 17) as u64 {
            proof {
                assert forall|m: Message| m.wf() implies !starts_with_bytes(
                    s,
                    #[trigger] spec_encode(m),
                ) by {
                    if starts_with_bytes(s, spec_encode(m)) {
                        assert(s[0] == spec_encode(m)[0]) by {
                            lemma_prefix_range(s, spec_encode(m), 0, 1);
                            assert(s.subrange(0, 1)[0] == spec_encode(m).subrange(0, 1)[0]);
                        }
                        match m {
                            Message::FileHeader { path, len } => {
                                let pb = encode_utf8(path@);
                                lemma_prefix_range(s, spec_encode(m), 9, 17);
                                assert(spec_encode(m).subrange(9, 17) =~= spec_u64_to_le_bytes(
                                    pb.len() as u64,
                                ));
                                assert(plen == pb.len());
                                assert(spec_encode(m).len() == 17 + pb.len() as int);
                            },
                            Message::FileBody { data } => {
                                assert(spec_encode(m)[0] == 2);
                            },
                            Message::FileFooter { sha256, md5 } => {
                                assert(spec_encode(m)[0] == 3);
                            },
                            Message::Directory { path } => {
                                assert(spec_encode(m)[0] == 4);
                            },
                        }
                    }
                }
            }
            return None;
        }
        let plen_us = plen as usize;
        let path_bytes = copy_range(buf, start + 17, start + 17 + plen_us);
        let ghost pb_view = path_bytes@;
        match string_from_utf8(path_bytes) {
            Some(path) => {
                let msg = Message::FileHeader { path, len: len_v };
                let next = start + 17 + plen_us;
                proof {
                    assert(encode_utf8(msg->FileHeader_path@) == pb_view);
                    assert(spec_encode(msg) =~= buf@.subrange(start as int, next as int)) by {
                        let enc = spec_encode(msg);
                        assert(enc == seq![1u8] + spec_u64_to_le_bytes(len_v)
                            + spec_u64_to_le_bytes(plen) + pb_view);
                        assert(spec_u64_to_le_bytes(len_v) == buf@.subrange(start + 1, start + 9));
                        assert(spec_u64_to_le_bytes(plen) == buf@.subrange(start + 9, start + 17));
                    }
                }
                Some((msg, next))
            },
            None => {
                proof {
                    assert forall|m: Message| m.wf() implies !starts_with_bytes(
                        s,
                        #[trigger] spec_encode(m),
                    ) by {
                        if starts_with_bytes(s, spec_encode(m)) {
                            assert(s[0] == spec_encode(m)[0]) by {
                                lemma_prefix_range(s, spec_encode(m), 0, 1);
                                assert(s.subrange(0, 1)[0] == spec_encode(m).subrange(0, 1)[0]);
                            }
                            match m {
                                Message::FileHeader { path, len } => {
                                    let pb = encode_utf8(path@);
                                    lemma_prefix_range(s, spec_encode(m), 9, 17);
                                    assert(spec_encode(m).subrange(9, 17)
                                        =~= spec_u64_to_le_bytes(pb.len() as u64));
                                    assert(plen == pb.len());
                                    lemma_prefix_range(s, spec_encode(m), 17, 17 + pb.len() as int);
                                    assert(spec_encode(m).subrange(17, 17 + pb.len() as int) =~= pb);
                                    assert(pb_view =~= pb) by {
                                        assert(s.subrange(17, 17 + pb.len() as int) =~= buf@.subrange(
                                            start + 17,
                                            start + 17 + plen,
                                        ));
                                    }
                                    assert(valid_utf8(pb_view));
                                },
                                Message::FileBody { data } => {
                                    assert(spec_encode(m)[0] == 2);
                                },
                                Message::FileFooter { sha256, md5 } => {
                                    assert(spec_encode(m)[0] == 3);
                                },
                                Message::Directory { path } => {
                                    assert(spec_encode(m)[0] == 4);
                                },
                            }
                        }
                    }
                }
                None
            },
        }
    } else if tag == 2 {
        // FileBody: tag, data length, data bytes
        if avail < 9 {
            proof {
                assert forall|m: Message| m.wf() implies !starts_with_bytes(
                    s,
                    #[trigger] spec_encode(m),
                ) by {
                    if starts_with_bytes(s, spec_encode(m)) {
                        assert(s[0] == spec_encode(m)[0]) by {
                            lemma_prefix_range(s, spec_encode(m), 0, 1);
                            assert(s.subrange(0, 1)[0] == spec_encode(m).subrange(0, 1)[0]);
                        }
                        match m {
                            Message::FileHeader { path, len } => {
                                assert(spec_encode(m)[0] == 1);
                            },
                            Message::FileBody { data } => {
                                assert(spec_encode(m).len() >= 9);
                            },
                            Message::FileFooter { sha256, md5 } => {
                                assert(spec_encode(m)[0] == 3);
                            },
                            Message::Directory { path } => {
                                assert(spec_encode(m)[0] == 4);
                            },
                        }
                    }
                }
            }
            return None;
        }
        let dlen = read_u64(buf, start + 1);
        proof {
            assert(buf@.subrange(start + 1, start + 9) =~= s.subrange(1, 9));
        }
        if dlen > (avail - 9) as u64 {
            proof {
                assert forall|m: Message| m.wf() implies !starts_with_bytes(
                    s,
                    #[trigger] spec_encode(m),
                ) by {
                    if starts_with_bytes(s, spec_encode(m)) {
                        assert(s[0] == spec_encode(m)[0]) by {
                            lemma_prefix_range(s, spec_encode(m), 0, 1);
                            assert(s.subrange(0, 1)[0] == spec_encode(m).subrange(0, 1)[0]);
                        }
                        match m {
                            Message::FileHeader { path, len } => {
                                assert(spec_encode(m)[0] == 1);
                            },
                            Message::FileBody { data } => {
                                lemma_prefix_range(s, spec_encode(m), 1, 9);
                                assert(spec_encode(m).subrange(1, 9) =~= spec_u64_to_le_bytes(
                                    data@.len() as u64,
                                ));
                                assert(dlen == data@.len());
                                assert(spec_encode(m).len() == 9 + data@.len());
                            },
                            Message::FileFooter { sha256, md5 } => {
                                assert(spec_encode(m)[0] == 3);
                            },
                            Message::Directory { path } => {
                                assert(spec_encode(m)[0] == 4);
                            },
                        }
                    }
                }
            }
            return None;
        }
        let dlen_us = dlen as usize;
        let data = copy_range(buf, start + 9, start + 9 + dlen_us);
        let msg = Message::FileBody { data };
        let next = start + 9 + dlen_us;
        proof {
            assert(spec_encode(msg) =~= buf@.subrange(start as int, next as int)) by {
                assert(spec_u64_to_le_bytes(dlen) == buf@.subrange(start + 1, start + 9));
            }
        }
        Some((msg, next))
    } else if tag == 3 {
        // FileFooter: tag, 32 digest bytes, 16 digest bytes
        if avail < 49 {
            proof {
                assert forall|m: Message| m.wf() implies !starts_with_bytes(
                    s,
                    #[trigger] spec_encode(m),
                ) by {
                    if starts_with_bytes(s, spec_encode(m)) {
                        assert(s[0] == spec_encode(m)[0]) by {
                            lemma_prefix_range(s, spec_encode(m), 0, 1);
                            assert(s.subrange(0, 1)[0] == spec_encode(m).subrange(0, 1)[0]);
                        }
                        match m {
                            Message::FileHeader { path, len } => {
                                assert(spec_encode(m)[0] == 1);
                            },
                            Message::FileBody { data } => {
                                assert(spec_encode(m)[0] == 2);
                            },
                            Message::FileFooter { sha256, md5 } => {
                                assert(spec_encode(m).len() == 49);
                            },
                            Message::Directory { path } => {
                                assert(spec_encode(m)[0] == 4);
                            },
                        }
                    }
                }
            }
            return None;
        }
        let sha256 = copy_range(buf, start + 1, start + 33);
        let md5 = copy_range(buf, start + 33, start + 49);
        let msg = Message::FileFooter { sha256, md5 };
        let next = start + 49;
        proof {
            assert(spec_encode(msg) =~= buf@.subrange(start as int, next as int));
        }
        Some((msg, next))
    } else if tag == 4 {
        // Directory: tag, path length, path bytes
        if avail < 9 {
            proof {
                assert forall|m: Message| m.wf() implies !starts_with_bytes(
                    s,
                    #[trigger] spec_encode(m),
                ) by {
                    if starts_with_bytes(s, spec_encode(m)) {
                        assert(s[0] == spec_encode(m)[0]) by {
                            lemma_prefix_range(s, spec_encode(m), 0, 1);
                            assert(s.subrange(0, 1)[0] == spec_encode(m).subrange(0, 1)[0]);
                        }
                        match m {
                            Message::FileHeader { path, len } => {
                                assert(spec_encode(m)[0] == 1);
                            },
                            Message::FileBody { data } => {
                                assert(spec_encode(m)[0] == 2);
                            },
                            Message::FileFooter { sha256, md5 } => {
                                assert(spec_encode(m)[0] == 3);
                            },
                            Message::Directory { path } => {
                                assert(spec_encode(m).len() >= 9);
                            },
                        }
                    }
                }
            }
            return None;
        }
        let plen = read_u64(buf, start + 1);
        proof {
            assert(buf@.subrange(start + 1, start + 9) =~= s.subrange(1, 9));
        }
        if plen > (avail - 9) as u64 {
            proof {
                assert forall|m: Message| m.wf() implies !starts_with_bytes(
                    s,
                    #[trigger] spec_encode(m),
                ) by {
                    if starts_with_bytes(s, spec_encode(m)) {
                        assert(s[0] == spec_encode(m)[0]) by {
                            lemma_prefix_range(s, spec_encode(m), 0, 1);
                            assert(s.subrange(0, 1)[0] == spec_encode(m).subrange(0, 1)[0]);
                        }
                        match m {
                            Message::FileHeader { path, len } => {
                                assert(spec_encode(m)[0] == 1);
                            },
                            Message::FileBody { data } => {
                                assert(spec_encode(m)[0] == 2);
                            },
                            Message::FileFooter { sha256, md5 } => {
                                assert(spec_encode(m)[0] == 3);
                            },
                            Message::Directory { path } => {
                                let pb = encode_utf8(path@);
                                lemma_prefix_range(s, spec_encode(m), 1, 9);
                                assert(spec_encode(m).subrange(1, 9) =~= spec_u64_to_le_bytes(
                                    pb.len() as u64,
                                ));
                                assert(plen == pb.len());
                                assert(spec_encode(m).len() == 9 + pb.len() as int);
                            },
                        }
                    }
                }
            }
            return None;
        }
        let plen_us = plen as usize;
        let path_bytes = copy_range(buf, start + 9, start + 9 + plen_us);
        let ghost pb_view = path_bytes@;
        match string_from_utf8(path_bytes) {
            Some(path) => {
                let msg = Message::Directory { path };
                let next = start + 9 + plen_us;
                proof {
                    assert(encode_utf8(msg->Directory_path@) == pb_view);
                    assert(spec_encode(msg) =~= buf@.subrange(start as int, next as int)) by {
                        assert(spec_u64_to_le_bytes(plen) == buf@.subrange(start + 1, start + 9));
                    }
                }
                Some((msg, next))
            },
            None => {
                proof {
                    assert forall|m: Message| m.wf() implies !starts_with_bytes(
                        s,
                        #[trigger] spec_encode(m),
                    ) by {
                        if starts_with_bytes(s, spec_encode(m)) {
                            assert(s[0] == spec_encode(m)[0]) by {
                                lemma_prefix_range(s, spec_encode(m), 0, 1);
                                assert(s.subrange(0, 1)[0] == spec_encode(m).subrange(0, 1)[0]);
                            }
                            match m {
                                Message::FileHeader { path, len } => {
                                    assert(spec_encode(m)[0] == 1);
                                },
                                Message::FileBody { data } => {
                                    assert(spec_encode(m)[0] == 2);
                                },
                                Message::FileFooter { sha256, md5 } => {
                                    assert(spec_encode(m)[0] == 3);
                                },
                                Message::Directory { path } => {
                                    let pb = encode_utf8(path@);
                                    lemma_prefix_range(s, spec_encode(m), 1, 9);
                                    assert(spec_encode(m).subrange(1, 9)
                                        =~= spec_u64_to_le_bytes(pb.len() as u64));
                                    assert(plen == pb.len());
                                    lemma_prefix_range(s, spec_encode(m), 9, 9 + pb.len() as int);
                                    assert(spec_encode(m).subrange(9, 9 + pb.len() as int) =~= pb);
                                    assert(pb_view =~= pb) by {
                                        assert(s.subrange(9, 9 + pb.len() as int) =~= buf@.subrange(
                                            start + 9,
                                            start + 9 + plen,
                                        ));
                                    }
                                    assert(valid_utf8(pb_view));
                                },
                            }
                        }
                    }
                }
                None
            },
        }
    } else {
        proof {
            assert forall|m: Message| m.wf() implies !starts_with_bytes(
                s,
                #[trigger] spec_encode(m),
            ) by {
                if starts_with_bytes(s, spec_encode(m)) {
                    assert(s[0] == spec_encode(m)[0]) by {
                        lemma_prefix_range(s, spec_encode(m), 0, 1);
                        assert(s.subrange(0, 1)[0] == spec_encode(m).subrange(0, 1)[0]);
                    }
                    match m {
                        Message::FileHeader { path, len } => {
                            assert(spec_encode(m)[0] == 1);
                        },
                        Message::FileBody { data } => {
                            assert(spec_encode(m)[0] == 2);
                        },
                        Message::FileFooter { sha256, md5 } => {
                            assert(spec_encode(m)[0] == 3);
                        },
                        Message::Directory { path } => {
                            assert(spec_encode(m)[0] == 4);
                        },
                    }
                }
            }
        }
        None
    }
}

} // verus!
