use fs_capture::encoder::decompress_frame;
use fs_capture::file_offline::offline_attributes;
use fs_capture::message::{decode_message, encode_message, Message};
use fs_capture::stream::{
    build_stream, directory_message, encode_frames, entry_plan, file_messages, EntryAction,
    EntryInput,
};
use sha3::Digest;

fn file_entry(path: &str, len: u64, content: Vec<Vec<u8>>) -> EntryInput {
    EntryInput {
        path: path.to_string(),
        meta_ok: true,
        offline: false,
        is_file: true,
        len,
        content,
    }
}

fn body_payloads(msgs: &[Message]) -> Vec<u8> {
    let mut out = Vec::new();
    for m in msgs {
        if let Message::FileBody { data } = m {
            out.extend_from_slice(data);
        }
    }
    out
}

fn check_file_group(msgs: &[Message], path: &str, len: u64, content: &[u8]) {
    assert!(msgs.len() >= 2);
    match &msgs[0] {
        Message::FileHeader { path: p, len: l } => {
            assert_eq!(p.as_str(), path);
            assert_eq!(*l, len);
        },
        _ => panic!("group must open with a header"),
    }
    for m in &msgs[1..msgs.len() - 1] {
        assert!(matches!(m, Message::FileBody { .. }));
    }
    // the concatenated body payloads decompress to the uncompressed bytes
    let compressed = body_payloads(msgs);
    let recovered = decompress_frame(&compressed).expect("a complete frame");
    assert_eq!(recovered.as_slice(), content);
    assert_eq!(recovered.len() as u64, len);
    // the footer digests match the digests recomputed over the recovered bytes
    match &msgs[msgs.len() - 1] {
        Message::FileFooter { sha256, md5 } => {
            let mut sha = sha3::Sha3_256::new();
            sha.update(&recovered);
            assert_eq!(sha256.as_slice(), sha.finalize().as_slice());
            let mut md = md5::Md5::new();
            md.update(&recovered);
            assert_eq!(md5.as_slice(), md.finalize().as_slice());
        },
        _ => panic!("group must close with a footer"),
    }
}

#[test]
fn entry_plan_decisions() {
    assert_eq!(entry_plan(false, false, true), EntryAction::SkipEntry);
    assert_eq!(entry_plan(true, true, true), EntryAction::SkipEntry);
    assert_eq!(entry_plan(true, false, true), EntryAction::EmitFile);
    assert_eq!(entry_plan(true, false, false), EntryAction::EmitDirectory);
}

#[test]
fn offline_attribute_bits() {
    assert!(offline_attributes(0x1000));
    assert!(offline_attributes(0x40000));
    assert!(offline_attributes(0x400000));
    assert!(offline_attributes(0x1000 | 0x20));
    assert!(!offline_attributes(0));
    assert!(!offline_attributes(0x2000));
}

#[test]
fn offline_entry_emits_nothing() {
    // a content-not-resident file produces zero messages
    let mut entry = file_entry("/cloud/placeholder", 10, vec![vec![1, 2, 3]]);
    entry.offline = true;
    let msgs = build_stream(&vec![entry]);
    assert!(msgs.is_empty());
}

#[test]
fn unreadable_metadata_emits_nothing() {
    let mut entry = file_entry("/gone", 0, vec![]);
    entry.meta_ok = false;
    let msgs = build_stream(&vec![entry]);
    assert!(msgs.is_empty());
}

#[test]
fn zero_byte_file_group() {
    // header with len 0, possibly-empty bodies, footer with digests of empty
    // input
    let msgs = file_messages(&"/empty".to_string(), 0, &vec![]);
    check_file_group(&msgs, "/empty", 0, &[]);
}

#[test]
fn multi_chunk_file_round_trip() {
    // a file spanning several read chunks: the concatenated FileBody payloads
    // are the compressed form of the whole content
    let mut full = Vec::new();
    let mut chunks = Vec::new();
    for c in 0..3u8 {
        let chunk: Vec<u8> = (0..40_000u32).map(|i| (i % 251) as u8 ^ c).collect();
        full.extend_from_slice(&chunk);
        chunks.push(chunk);
    }
    let msgs = file_messages(&"/big/file.bin".to_string(), full.len() as u64, &chunks);
    assert!(msgs.len() >= 3);
    check_file_group(&msgs, "/big/file.bin", full.len() as u64, &full);
}

#[test]
fn chunking_does_not_change_compressed_payload() {
    // the compressed frame is a function of the content alone: the same bytes
    // fed as one chunk and as several smaller chunks give identical
    // concatenated FileBody payloads
    let full: Vec<u8> = (0..120_000u32).map(|i| (i % 13) as u8).collect();
    let whole = file_messages(&"/f".to_string(), full.len() as u64, &vec![full.clone()]);
    let parts = vec![
        full[..40_000].to_vec(),
        full[40_000..80_000].to_vec(),
        full[80_000..].to_vec(),
    ];
    let split = file_messages(&"/f".to_string(), full.len() as u64, &parts);
    assert_eq!(body_payloads(&whole), body_payloads(&split));
}

#[test]
fn directory_entry_single_message() {
    let entry = EntryInput {
        path: "/some/dir".to_string(),
        meta_ok: true,
        offline: false,
        is_file: false,
        len: 0,
        content: vec![],
    };
    let msgs = build_stream(&vec![entry]);
    assert_eq!(msgs.len(), 1);
    match &msgs[0] {
        Message::Directory { path } => assert_eq!(path.as_str(), "/some/dir"),
        _ => panic!("expected a directory message"),
    }
}

#[test]
fn stream_groups_follow_walker_order() {
    let entries = vec![
        file_entry("/a.txt", 2, vec![vec![7, 8]]),
        EntryInput {
            path: "/d".to_string(),
            meta_ok: true,
            offline: false,
            is_file: false,
            len: 0,
            content: vec![],
        },
    ];
    let msgs = build_stream(&entries);
    // first group: header .. footer for /a.txt; then the directory message
    assert!(matches!(&msgs[0], Message::FileHeader { .. }));
    let footer_at = msgs
        .iter()
        .position(|m| matches!(m, Message::FileFooter { .. }))
        .unwrap();
    assert_eq!(footer_at, msgs.len() - 2);
    assert!(matches!(&msgs[msgs.len() - 1], Message::Directory { .. }));
    check_file_group(&msgs[..msgs.len() - 1], "/a.txt", 2, &[7, 8]);
}

#[test]
fn encode_body_exact_bytes() {
    let frame = encode_message(&Message::FileBody { data: vec![0xAA, 0xBB] });
    assert_eq!(frame, vec![2u8, 2, 0, 0, 0, 0, 0, 0, 0, 0xAA, 0xBB]);
}

#[test]
fn encode_header_exact_bytes() {
    let frame = encode_message(&Message::FileHeader { path: "/a".to_string(), len: 258 });
    let mut expected = vec![1u8];
    expected.extend_from_slice(&[2, 1, 0, 0, 0, 0, 0, 0]); // len 258
    expected.extend_from_slice(&[2, 0, 0, 0, 0, 0, 0, 0]); // path byte count
    expected.extend_from_slice(b"/a");
    assert_eq!(frame, expected);
}

#[test]
fn decode_inverts_encode() {
    let messages = vec![
        Message::FileHeader { path: "/x/y".to_string(), len: 7 },
        Message::FileBody { data: vec![1, 2, 3, 4] },
        Message::FileBody { data: vec![] },
        Message::FileFooter { sha256: vec![5u8; 32], md5: vec![6u8; 16] },
        Message::Directory { path: "/x".to_string() },
    ];
    let frames = encode_frames(&messages);
    let mut stream = Vec::new();
    for f in &frames {
        stream.extend_from_slice(f);
    }
    let mut at = 0usize;
    let mut decoded = Vec::new();
    while at < stream.len() {
        let (m, next) = decode_message(&stream, at).expect("a frame");
        assert!(next > at);
        decoded.push(m);
        at = next;
    }
    assert_eq!(decoded.len(), messages.len());
    for (d, m) in decoded.iter().zip(messages.iter()) {
        match (d, m) {
            (
                Message::FileHeader { path: dp, len: dl },
                Message::FileHeader { path: mp, len: ml },
            ) => {
                assert_eq!(dp, mp);
                assert_eq!(dl, ml);
            },
            (Message::FileBody { data: dd }, Message::FileBody { data: md }) => {
                assert_eq!(dd, md);
            },
            (
                Message::FileFooter { sha256: ds, md5: dm },
                Message::FileFooter { sha256: ms, md5: mm },
            ) => {
                assert_eq!(ds, ms);
                assert_eq!(dm, mm);
            },
            (Message::Directory { path: dp }, Message::Directory { path: mp }) => {
                assert_eq!(dp, mp);
            },
            _ => panic!("variant changed across the round trip"),
        }
    }
}

#[test]
fn decode_rejects_unknown_tag() {
    assert!(decode_message(&vec![9u8, 0, 0], 0).is_none());
}

#[test]
fn decode_rejects_truncated_frame() {
    let frame = encode_message(&Message::FileBody { data: vec![1, 2, 3, 4] });
    let truncated: Vec<u8> = frame[..frame.len() - 1].to_vec();
    assert!(decode_message(&truncated, 0).is_none());
}

#[test]
fn directory_message_carries_path() {
    let m = directory_message(&"/p/q".to_string());
    match m {
        Message::Directory { path } => assert_eq!(path.as_str(), "/p/q"),
        _ => panic!("expected a directory message"),
    }
}

#[test]
fn decompress_rejects_garbage() {
    assert!(decompress_frame(&vec![1, 2, 3]).is_none());
}
