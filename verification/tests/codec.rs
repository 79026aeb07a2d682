use libplen::codec;

fn payload(n: usize) -> Vec<u8> {
    (0..n).map(|i| (i % 251) as u8).collect()
}

#[test]
fn frame_round_trip_empty() {
    let p: Vec<u8> = vec![];
    let f = codec::encode(&p).unwrap();
    assert_eq!(f, vec![0u8, 0u8]);
    let (frames, used) = codec::decode_incremental(&f);
    assert_eq!(frames, vec![p]);
    assert_eq!(used, f.len());
}

#[test]
fn frame_round_trip_small() {
    let p = vec![1u8, 2, 3];
    let f = codec::encode(&p).unwrap();
    assert_eq!(f, vec![0u8, 3u8, 1, 2, 3]);
    let (frames, used) = codec::decode_incremental(&f);
    assert_eq!(frames, vec![p]);
    assert_eq!(used, 5);
}

#[test]
fn frame_round_trip_two_byte_length() {
    let p = payload(300);
    let f = codec::encode(&p).unwrap();
    assert_eq!(f[0], 1);
    assert_eq!(f[1], 44);
    let (frames, used) = codec::decode_incremental(&f);
    assert_eq!(frames, vec![p]);
    assert_eq!(used, 302);
}

#[test]
fn frame_round_trip_largest() {
    let p = payload(65535);
    let f = codec::encode(&p).unwrap();
    assert_eq!(f.len(), 65537);
    let (frames, used) = codec::decode_incremental(&f);
    assert_eq!(frames.len(), 1);
    assert_eq!(frames[0], p);
    assert_eq!(used, 65537);
}

#[test]
fn oversized_payload_rejected() {
    let p = payload(65536);
    assert!(codec::encode(&p).is_none());
}

#[test]
fn partial_header_yields_nothing() {
    let buf = vec![0u8];
    let (frames, used) = codec::decode_incremental(&buf);
    assert!(frames.is_empty());
    assert_eq!(used, 0);
}

#[test]
fn partial_body_yields_nothing() {
    // header declares 4 bytes, only 3 arrived
    let buf = vec![0u8, 4, 10, 11, 12];
    let (frames, used) = codec::decode_incremental(&buf);
    assert!(frames.is_empty());
    assert_eq!(used, 0);
}

#[test]
fn two_frames_and_a_remainder() {
    let a = vec![9u8];
    let b = vec![7u8, 8u8];
    let mut buf = codec::encode(&a).unwrap();
    buf.extend_from_slice(&codec::encode(&b).unwrap());
    buf.push(0); // start of an incomplete header
    let (frames, used) = codec::decode_incremental(&buf);
    assert_eq!(frames, vec![a, b]);
    assert_eq!(used, buf.len() - 1);
}

#[test]
fn chunk_independence_byte_by_byte() {
    // feeding the encoding one byte at a time yields the same single frame,
    // and nothing before its last byte arrived
    let p = payload(100);
    let f = codec::encode(&p).unwrap();
    let mut pending: Vec<u8> = Vec::new();
    let mut collected: Vec<Vec<u8>> = Vec::new();
    for (i, byte) in f.iter().enumerate() {
        pending.push(*byte);
        let (frames, used) = codec::decode_incremental(&pending);
        pending.drain(..used);
        if i + 1 < f.len() {
            assert!(frames.is_empty());
        }
        collected.extend(frames);
    }
    assert_eq!(collected, vec![p]);
    assert!(pending.is_empty());
}

#[test]
fn chunk_independence_random_splits() {
    let p = payload(50);
    let f = codec::encode(&p).unwrap();
    for split in 1..f.len() {
        let mut pending: Vec<u8> = Vec::new();
        let mut collected: Vec<Vec<u8>> = Vec::new();
        for chunk in [&f[..split], &f[split..]] {
            pending.extend_from_slice(chunk);
            let (frames, used) = codec::decode_incremental(&pending);
            pending.drain(..used);
            collected.extend(frames);
        }
        assert_eq!(collected, vec![p.clone()]);
        assert!(pending.is_empty());
    }
}
