use mempool_client::codec::{DecodeError, Decoder};
use mempool_client::encode::encode_frame;

fn frame(size_hint: Option<u32>, counter: u64, txs: &[&[u8]]) -> Vec<u8> {
    let owned: Vec<Vec<u8>> = txs.iter().map(|t| t.to_vec()).collect();
    encode_frame(size_hint, counter, &owned)
}

fn decode_all(full_mode: bool, bytes: &[u8], chunk_len: usize) -> (Decoder, Vec<Vec<u8>>) {
    let mut d = Decoder::new(full_mode);
    let mut out: Vec<Vec<u8>> = Vec::new();
    let mut i = 0;
    while i < bytes.len() {
        let end = (i + chunk_len).min(bytes.len());
        let txs = d.feed(&bytes[i..end]).expect("valid stream");
        out.extend(txs);
        i = end;
    }
    (d, out)
}

#[test]
fn encoder_exact_bytes() {
    let bytes = frame(None, 0x0102030405060708, &[&[0xAA]]);
    let expected: Vec<u8> = vec![
        0xFF, 0xFF, 0xFF, 0xFF, 0xFF, 0xFF, 0xFF, 0xFF, // magic
        0x01, 0x02, 0x03, 0x04, 0x05, 0x06, 0x07, 0x08, // counter
        0x00, 0x00, 0x00, 0x01, // record length
        0xAA, // record payload
    ];
    assert_eq!(bytes, expected);
}

#[test]
fn encoder_full_mode_has_size_hint() {
    let bytes = frame(Some(3), 9, &[]);
    let expected: Vec<u8> = vec![
        0xFF, 0xFF, 0xFF, 0xFF, 0xFF, 0xFF, 0xFF, 0xFF, // magic
        0x00, 0x00, 0x00, 0x03, // size hint
        0x00, 0x00, 0x00, 0x00, 0x00, 0x00, 0x00, 0x09, // counter
    ];
    assert_eq!(bytes, expected);
}

#[test]
fn round_trip_full_snapshot() {
    // A full-snapshot frame with size_hint=2, sequence_counter=100 and two
    // transactions of lengths 5 and 7 decodes back to exactly those.
    let tx1: &[u8] = &[1, 2, 3, 4, 5];
    let tx2: &[u8] = &[9, 8, 7, 6, 5, 4, 3];
    let bytes = frame(Some(2), 100, &[tx1, tx2]);
    let (d, txs) = decode_all(true, &bytes, bytes.len());
    assert_eq!(d.counter(), Some(100));
    assert_eq!(d.size_hint(), Some(2));
    assert_eq!(txs, vec![tx1.to_vec(), tx2.to_vec()]);
}

#[test]
fn chunk_boundary_independence_all_splits() {
    // Delivering the same frame in chunks of every possible length yields
    // the same decoded fields and transactions as one single chunk.
    let tx1: &[u8] = &[10, 20, 30];
    let tx2: &[u8] = &[];
    let tx3: &[u8] = &[0xFF; 70];
    let bytes = frame(Some(3), 424242, &[tx1, tx2, tx3]);
    let (d_whole, txs_whole) = decode_all(true, &bytes, bytes.len());
    for chunk_len in 1..=bytes.len() {
        let (d, txs) = decode_all(true, &bytes, chunk_len);
        assert_eq!(txs, txs_whole);
        assert_eq!(d.counter(), d_whole.counter());
        assert_eq!(d.size_hint(), d_whole.size_hint());
    }
}

#[test]
fn bad_magic_fails_immediately() {
    // First 8 bytes differ from the sentinel: the fetch fails at once, with
    // no field decoded.
    let mut bytes = frame(None, 5, &[&[1, 2, 3]]);
    bytes[3] = 0x00;
    let mut d = Decoder::new(false);
    assert_eq!(d.feed(&bytes), Err(DecodeError::InvalidMagic));
    assert_eq!(d.counter(), None);
    assert_eq!(d.size_hint(), None);
}

#[test]
fn bad_magic_fails_across_chunks() {
    // The failure comes on the exact feed where the 8th byte arrives.
    let mut d = Decoder::new(true);
    assert_eq!(d.feed(&[0xFF, 0xFF, 0xFF]), Ok(vec![]));
    assert_eq!(d.feed(&[0xFF, 0xFF, 0xFF, 0xFE]), Ok(vec![]));
    assert_eq!(d.feed(&[0xFF]), Err(DecodeError::InvalidMagic));
}

#[test]
fn incremental_frame_has_no_size_hint() {
    let tx: &[u8] = &[42; 11];
    let bytes = frame(None, 77, &[tx]);
    let (d, txs) = decode_all(false, &bytes, 2);
    assert_eq!(d.counter(), Some(77));
    assert_eq!(d.size_hint(), None);
    assert_eq!(txs, vec![tx.to_vec()]);
}

#[test]
fn partial_fields_stay_pending() {
    // A field is decoded only once all of its bytes are in; nothing is
    // consumed early, and the counter stays undefined until complete.
    let bytes = frame(None, 300, &[&[7, 7]]);
    let mut d = Decoder::new(false);
    // magic (8) + 7 of the counter's 8 bytes
    assert_eq!(d.feed(&bytes[..15]), Ok(vec![]));
    assert_eq!(d.counter(), None);
    assert_eq!(d.counter_or_undefined(), u64::MAX);
    // the counter completes
    assert_eq!(d.feed(&bytes[15..16]), Ok(vec![]));
    assert_eq!(d.counter(), Some(300));
    // length field, then payload split mid-way
    assert_eq!(d.feed(&bytes[16..21]), Ok(vec![]));
    let txs = d.feed(&bytes[21..]).expect("valid stream");
    assert_eq!(txs, vec![vec![7, 7]]);
}

#[test]
fn truncated_stream_keeps_decoded_prefix() {
    // A stream that ends mid-record still yields everything decoded so far.
    let tx1: &[u8] = &[1, 1, 1];
    let tx2: &[u8] = &[2, 2, 2, 2];
    let bytes = frame(None, 8, &[tx1, tx2]);
    let truncated = &bytes[..bytes.len() - 2];
    let (d, txs) = decode_all(false, truncated, 5);
    assert_eq!(d.counter(), Some(8));
    assert_eq!(txs, vec![tx1.to_vec()]);
}

#[test]
fn empty_stream_leaves_counter_undefined() {
    let mut d = Decoder::new(true);
    assert_eq!(d.feed(&[]), Ok(vec![]));
    assert_eq!(d.counter(), None);
    assert_eq!(d.counter_or_undefined(), u64::MAX);
    assert_eq!(d.size_hint(), None);
}

#[test]
fn zero_length_record_is_delivered() {
    let bytes = frame(None, 1, &[&[], &[5]]);
    let (d, txs) = decode_all(false, &bytes, 3);
    assert_eq!(d.counter(), Some(1));
    assert_eq!(txs, vec![vec![], vec![5]]);
}

#[test]
fn counter_sentinel_decodes_as_undefined_marker() {
    // A wire counter of all ones is a legitimate frame whose counter is the
    // reserved undefined value.
    let bytes = frame(None, u64::MAX, &[]);
    let (d, txs) = decode_all(false, &bytes, 4);
    assert_eq!(d.counter(), Some(u64::MAX));
    assert_eq!(d.counter_or_undefined(), u64::MAX);
    assert!(txs.is_empty());
}
