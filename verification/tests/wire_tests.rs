use topic_broker::wire::{
    batch_end, batch_start, BatchEnd, BatchStart,
    decode_response_header, encode_response, split_batch, u64_from_be, u64_to_be, BatchFailure,
    BatchStage, FrameError, Simplify,
};

fn frame(body: &[u8]) -> Vec<u8> {
    let mut v = (body.len() as u64).to_be_bytes().to_vec();
    v.extend_from_slice(body);
    v
}

#[test]
fn be64_round_trip() {
    let b = u64_to_be(0x0102_0304_0506_0708);
    assert_eq!(b, vec![1, 2, 3, 4, 5, 6, 7, 8]);
    assert_eq!(u64_from_be(&b), 0x0102_0304_0506_0708);
    assert_eq!(u64_to_be(u64::MAX), vec![0xff; 8]);
    assert_eq!(u64_from_be(&[0, 0, 0, 0, 0, 0, 1, 0, 99]), 256);
}

#[test]
fn simplify_splits_leading_frame() {
    let buf = vec![0, 0, 0, 0, 0, 0, 0, 3, 1, 2, 3, 9, 9];
    assert_eq!(Simplify(buf).unwrap(), (vec![1, 2, 3], vec![9, 9]));
}

#[test]
fn simplify_empty_frame() {
    let buf = vec![0u8; 8];
    assert_eq!(Simplify(buf).unwrap(), (vec![], vec![]));
}

#[test]
fn simplify_too_short() {
    assert_eq!(Simplify(vec![0, 0, 0, 0, 1]), Err(FrameError::TooShort { len: 5 }));
    assert_eq!(Simplify(vec![]), Err(FrameError::TooShort { len: 0 }));
}

#[test]
fn simplify_truncated() {
    let buf = vec![0, 0, 0, 0, 0, 0, 0, 10, 1, 2];
    assert_eq!(Simplify(buf), Err(FrameError::Truncated { declared: 10, available: 2 }));
}

#[test]
fn simplify_length_overflow() {
    let buf = vec![0xff; 12];
    assert_eq!(
        Simplify(buf),
        Err(FrameError::LengthOverflow { declared: u64::MAX as usize })
    );
}

#[test]
fn frame_then_rest_round_trip() {
    let mut buf = frame(b"hello");
    buf.extend_from_slice(b"tail");
    assert_eq!(Simplify(buf).unwrap(), (b"hello".to_vec(), b"tail".to_vec()));
}

#[test]
fn response_record_layout() {
    let ok = encode_response(true, &[7, 8]);
    assert_eq!(ok, vec![1, 0, 0, 0, 0, 0, 0, 0, 2, 7, 8]);
    let err = encode_response(false, b"no");
    assert_eq!(err[0], 0);
    assert_eq!(&err[9..], b"no");
}

#[test]
fn response_header_round_trip() {
    let rec = encode_response(true, &[5; 300]);
    assert_eq!(decode_response_header(&rec[..9]), (true, 300));
    let rec = encode_response(false, &[]);
    assert_eq!(decode_response_header(&rec), (false, 0));
    assert_eq!(decode_response_header(&[2, 0, 0, 0, 0, 0, 0, 0, 1]), (false, 1));
}

fn request(op: &[u8], payload: &[u8]) -> Vec<u8> {
    let mut r = frame(op);
    r.extend_from_slice(payload);
    frame(&r)
}

#[test]
fn batch_reads_all_requests() {
    let mut body = request(b"a", b"xy");
    body.extend(request(b"bb", b""));
    body.extend_from_slice(&[42]);
    let batch = split_batch(2, body);
    assert_eq!(batch.requests.len(), 2);
    assert_eq!(batch.requests[0].operation, b"a".to_vec());
    assert_eq!(batch.requests[0].payload, b"xy".to_vec());
    assert_eq!(batch.requests[1].operation, b"bb".to_vec());
    assert_eq!(batch.requests[1].payload, Vec::<u8>::new());
    assert_eq!(batch.failure, None);
    assert_eq!(batch.remaining, vec![42]);
}

#[test]
fn batch_stops_at_missing_request() {
    let body = request(b"a", b"xy");
    let batch = split_batch(3, body);
    assert_eq!(batch.requests.len(), 1);
    assert_eq!(
        batch.failure,
        Some(BatchFailure { index: 1, stage: BatchStage::Request, error: FrameError::TooShort { len: 0 } })
    );
}

#[test]
fn batch_stops_at_bad_operation_frame() {
    let body = frame(&[0, 0, 0, 0, 0, 0, 0, 9, 1]);
    let batch = split_batch(1, body);
    assert!(batch.requests.is_empty());
    assert_eq!(
        batch.failure,
        Some(BatchFailure {
            index: 0,
            stage: BatchStage::Operation,
            error: FrameError::Truncated { declared: 9, available: 1 }
        })
    );
    assert!(batch.remaining.is_empty());
}

#[test]
fn batch_of_zero_requests_reads_nothing() {
    let batch = split_batch(0, vec![1, 2, 3]);
    assert!(batch.requests.is_empty());
    assert_eq!(batch.failure, None);
    assert_eq!(batch.remaining, vec![1, 2, 3]);
}

#[test]
fn batch_start_skips_empty_batches() {
    assert_eq!(batch_start(&[0; 8]), BatchStart::Skip);
    assert_eq!(batch_start(&3u64.to_be_bytes()), BatchStart::Read { count: 3 });
}

#[test]
fn batch_end_closes_on_failure() {
    let ok = split_batch(1, {
        let mut b = request(b"a", b"");
        b.extend_from_slice(&[1, 2]);
        b
    });
    assert_eq!(batch_end(&ok), BatchEnd::Continue { unconsumed: 2 });
    let bad = split_batch(2, request(b"a", b""));
    assert_eq!(
        batch_end(&bad),
        BatchEnd::Close {
            failure: BatchFailure { index: 1, stage: BatchStage::Request, error: FrameError::TooShort { len: 0 } }
        }
    );
}
