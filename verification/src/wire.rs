//! Byte-level wire format: big-endian integers, length-prefixed frames and
//! the server's response records.

use vstd::prelude::*;
use crate::seqs::copy_range;

verus! {

/// The eight big-endian bytes of `x`.
pub open spec fn be64_bytes(x: u64) -> Seq<u8> {
    seq![
        (x >> 56u64) as u8,
        (x >> 48u64) as u8,
        (x >> 40u64) as u8,
        (x >> 32u64) as u8,
        (x >> 24u64) as u8,
        (x >> 16u64) as u8,
        (x >> 8u64) as u8,
        x as u8,
    ]
}

/// The unsigned integer whose big-endian bytes are the first eight of `b`.
pub open spec fn be64_value(b: Seq<u8>) -> u64 {
    ((b[0] as u64) << 56u64) | ((b[1] as u64) << 48u64) | ((b[2] as u64) << 40u64) | ((
    b[3] as u64) << 32u64) | ((b[4] as u64) << 24u64) | ((b[5] as u64) << 16u64) | ((b[6] as u64)
        << 8u64) | (b[7] as u64)
}

/// Decoding the big-endian bytes of a number gives the number back.
pub proof fn lemma_be64_value_of_bytes(x: u64)
    ensures
        be64_value(be64_bytes(x)) == x,
{
    let b = be64_bytes(x);
    assert(((((x >> 56u64) as u8) as u64) << 56u64) | ((((x >> 48u64) as u8) as u64) << 48u64)
        | ((((x >> 40u64) as u8) as u64) << 40u64) | ((((x >> 32u64) as u8) as u64) << 32u64) | ((((
    x >> 24u64) as u8) as u64) << 24u64) | ((((x >> 16u64) as u8) as u64) << 16u64) | ((((x
        >> 8u64) as u8) as u64) << 8u64) | ((x as u8) as u64) == x) by (bit_vector);
}

/// The big-endian bytes of `x`, as a vector.
pub fn u64_to_be(x: u64) -> (r: Vec<u8>)
    ensures
        r@ == be64_bytes(x),
{
    let mut r: Vec<u8> = Vec::with_capacity(8);
    r.push((x >> 56u64) as u8);
    r.push((x >> 48u64) as u8);
    r.push((x >> 40u64) as u8);
    r.push((x >> 32u64) as u8);
    r.push((x >> 24u64) as u8);
    r.push((x >> 16u64) as u8);
    r.push((x >> 8u64) as u8);
    r.push(x as u8);
    assert(r@ =~= be64_bytes(x));
    r
}

/// The number whose big-endian bytes are the first eight of `b`.
pub fn u64_from_be(b: &[u8]) -> (r: u64)
    requires
        b.len() >= 8,
    ensures
        r == be64_value(b@),
{
    ((b[0] as u64) << 56u64) | ((b[1] as u64) << 48u64) | ((b[2] as u64) << 40u64) | ((
    b[3] as u64) << 32u64) | ((b[4] as u64) << 24u64) | ((b[5] as u64) << 16u64) | ((b[6] as u64)
        << 8u64) | (b[7] as u64)
}


/// Why a buffer does not begin with a complete length-prefixed frame.
#[derive(Clone, Copy, Debug, PartialEq, Eq)]
pub enum FrameError {
    /// Fewer than eight bytes: no length prefix to read.
    TooShort { len: usize },
    /// The declared length does not fit in an address after the prefix.
    LengthOverflow { declared: usize },
    /// The prefix declares more bytes than follow it.
    Truncated { declared: usize, available: usize },
}

/// The length that the first eight bytes of `buf` declare.
pub open spec fn declared_len(buf: Seq<u8>) -> usize {
    be64_value(buf) as usize
}

/// Splits `buf` into the frame body announced by its eight-byte big-endian
/// length prefix and the bytes that follow the body.
pub open spec fn split_frame(buf: Seq<u8>) -> Result<(Seq<u8>, Seq<u8>), FrameError> {
    if buf.len() < 8 {
        Err(FrameError::TooShort { len: buf.len() as usize })
    } else if 8 + declared_len(buf) > usize::MAX {
        Err(FrameError::LengthOverflow { declared: declared_len(buf) })
    } else if 8 + declared_len(buf) > buf.len() {
        Err(FrameError::Truncated { declared: declared_len(buf), available: (buf.len() - 8) as usize })
    } else {
        Ok((buf.subrange(8, 8 + declared_len(buf)), buf.subrange(8 + declared_len(buf), buf.len() as int)))
    }
}

/// A frame: the body's length as eight big-endian bytes, then the body.
pub open spec fn frame(body: Seq<u8>) -> Seq<u8> {
    be64_bytes(body.len() as u64) + body
}

/// Splits a buffer into the body of its leading length-prefixed frame and
/// the bytes after it; fails as `split_frame` says.
#[allow(non_snake_case)]
pub fn Simplify(buf: Vec<u8>) -> (r: Result<(Vec<u8>, Vec<u8>), FrameError>)
    ensures
        match r {
            Ok((body, rest)) => split_frame(buf@) == Ok::<(Seq<u8>, Seq<u8>), FrameError>((body@, rest@)),
            Err(e) => split_frame(buf@) == Err::<(Seq<u8>, Seq<u8>), FrameError>(e),
        },
{
    split_leading_frame(&buf)
}

/// `Simplify` on a borrowed buffer.
pub fn split_leading_frame(buf: &Vec<u8>) -> (r: Result<(Vec<u8>, Vec<u8>), FrameError>)
    ensures
        match r {
            Ok((body, rest)) => split_frame(buf@) == Ok::<(Seq<u8>, Seq<u8>), FrameError>((body@, rest@)),
            Err(e) => split_frame(buf@) == Err::<(Seq<u8>, Seq<u8>), FrameError>(e),
        },
{
    if buf.len() < 8 {
        return Err(FrameError::TooShort { len: buf.len() });
    }
    let len = u64_from_be(buf.as_slice()) as usize;
    if len > usize::MAX - 8 {
        return Err(FrameError::LengthOverflow { declared: len });
    }
    let end = 8 + len;
    if end > buf.len() {
        return Err(FrameError::Truncated { declared: len, available: buf.len() - 8 });
    }
    let body = copy_range(buf.as_slice(), 8, end);
    let rest = copy_range(buf.as_slice(), end, buf.len());
    Ok((body, rest))
}

/// A frame followed by anything splits into its body and what follows it.
pub proof fn lemma_split_frame_of_frame(body: Seq<u8>, rest: Seq<u8>)
    requires
        8 + body.len() <= usize::MAX,
    ensures
        split_frame(frame(body) + rest) == Ok::<(Seq<u8>, Seq<u8>), FrameError>((body, rest)),
{
    let buf = frame(body) + rest;
    lemma_be64_value_of_bytes(body.len() as u64);
    assert(buf.subrange(0, 8) =~= be64_bytes(body.len() as u64));
    lemma_be64_value_prefix(buf);
    assert(buf.subrange(8, 8 + body.len() as int) =~= body);
    assert(buf.subrange(8 + body.len() as int, buf.len() as int) =~= rest);
}

/// Only the first eight bytes of a buffer decide its big-endian value.
pub proof fn lemma_be64_value_prefix(b: Seq<u8>)
    requires
        b.len() >= 8,
    ensures
        be64_value(b) == be64_value(b.subrange(0, 8)),
{
}

/// A successful split gives back the frame and the bytes after it.
pub proof fn lemma_split_frame_exact(buf: Seq<u8>)
    requires
        split_frame(buf) is Ok,
    ensures
        ({
            let (body, rest) = split_frame(buf)->Ok_0;
            &&& buf == be64_bytes(be64_value(buf)) + body + rest
            &&& body.len() == declared_len(buf)
        }),
{
    let (body, rest) = split_frame(buf)->Ok_0;
    lemma_be64_bytes_of_value(buf);
    assert(buf =~= buf.subrange(0, 8) + body + rest);
}

/// The first eight bytes of a buffer are the big-endian bytes of their value.
pub proof fn lemma_be64_bytes_of_value(b: Seq<u8>)
    requires
        b.len() >= 8,
    ensures
        be64_bytes(be64_value(b)) == b.subrange(0, 8),
{
    let (b0, b1, b2, b3, b4, b5, b6, b7) = (b[0], b[1], b[2], b[3], b[4], b[5], b[6], b[7]);
    let v = be64_value(b);
    assert(v == ((b0 as u64) << 56u64) | ((b1 as u64) << 48u64) | ((b2 as u64) << 40u64) | ((
    b3 as u64) << 32u64) | ((b4 as u64) << 24u64) | ((b5 as u64) << 16u64) | ((b6 as u64) << 8u64)
        | (b7 as u64));
    assert((v >> 56u64) as u8 == b0 && (v >> 48u64) as u8 == b1 && (v >> 40u64) as u8 == b2 && (v
        >> 32u64) as u8 == b3 && (v >> 24u64) as u8 == b4 && (v >> 16u64) as u8 == b5 && (v
        >> 8u64) as u8 == b6 && v as u8 == b7) by (bit_vector)
        requires
            v == ((b0 as u64) << 56u64) | ((b1 as u64) << 48u64) | ((b2 as u64) << 40u64) | ((
            b3 as u64) << 32u64) | ((b4 as u64) << 24u64) | ((b5 as u64) << 16u64) | ((
            b6 as u64) << 8u64) | (b7 as u64),
    ;
    assert(be64_bytes(v) =~= b.subrange(0, 8));
}


/// Appends `body` to `out` as a frame.
pub fn push_frame(out: &mut Vec<u8>, body: &[u8])
    ensures
        final(out)@ == old(out)@ + frame(body@),
{
    let prefix = u64_to_be(body.len() as u64);
    out.extend_from_slice(prefix.as_slice());
    push_bytes(out, body);
    assert(final(out)@ =~= old(out)@ + frame(body@));
}

/// Appends the bytes of `b` to `out`.
pub fn push_bytes(out: &mut Vec<u8>, b: &[u8])
    ensures
        final(out)@ == old(out)@ + b@,
{
    let ghost start = out@;
    let mut i: usize = 0;
    while i < b.len()
        invariant
            i <= b.len(),
            out@ == start + b@.subrange(0, i as int),
        decreases b.len() - i,
    {
        out.push(b[i]);
        i = i + 1;
        assert(out@ =~= start + b@.subrange(0, i as int));
    }
    assert(b@.subrange(0, b.len() as int) =~= b@);
}

/// The record the server writes back for one request: one byte that is 1
/// for success and 0 for failure, the body's length as eight big-endian
/// bytes, then the body.
pub open spec fn response_record(ack: bool, body: Seq<u8>) -> Seq<u8> {
    seq![if ack { 1u8 } else { 0u8 }] + frame(body)
}

/// Builds the record that answers one request.
pub fn encode_response(ack: bool, body: &[u8]) -> (r: Vec<u8>)
    ensures
        r@ == response_record(ack, body@),
{
    let mut out: Vec<u8> = Vec::new();
    out.push(if ack { 1u8 } else { 0u8 });
    push_frame(&mut out, body);
    assert(out@ =~= response_record(ack, body@));
    out
}

/// What the nine header bytes of a response record say: whether the
/// request succeeded (the first byte is 1) and how many body bytes follow.
pub fn decode_response_header(header: &[u8]) -> (r: (bool, usize))
    requires
        header.len() >= 9,
    ensures
        r.0 == (header[0] == 1u8),
        r.1 == be64_value(header@.subrange(1, 9)) as usize,
{
    let ack = header[0] == 1u8;
    let mut len_bytes: Vec<u8> = Vec::with_capacity(8);
    let mut i: usize = 1;
    while i < 9
        invariant
            1 <= i <= 9,
            header.len() >= 9,
            len_bytes@ == header@.subrange(1, i as int),
        decreases 9 - i,
    {
        len_bytes.push(header[i]);
        i = i + 1;
        assert(len_bytes@ =~= header@.subrange(1, i as int));
    }
    let len = u64_from_be(len_bytes.as_slice()) as usize;
    (ack, len)
}

/// Reading the header of a response record gives back its success flag and
/// the length of its body, and the body follows the header.
pub proof fn lemma_response_record_header(ack: bool, body: Seq<u8>)
    requires
        body.len() <= usize::MAX,
    ensures
        ({
            let rec = response_record(ack, body);
            &&& (rec[0] == 1u8) == ack
            &&& be64_value(rec.subrange(1, 9)) as usize == body.len()
            &&& rec.subrange(9, rec.len() as int) == body
        }),
{
    let rec = response_record(ack, body);
    lemma_be64_value_of_bytes(body.len() as u64);
    assert(rec.subrange(1, 9) =~= be64_bytes(body.len() as u64));
    assert(rec.subrange(9, rec.len() as int) =~= body);
}


/// Which of the two frames of a request could not be read.
#[derive(Clone, Copy, Debug, PartialEq, Eq)]
pub enum BatchStage {
    /// The frame that holds the whole request.
    Request,
    /// The operation frame inside the request.
    Operation,
}

/// The request of a batch at which reading stopped, and why.
#[derive(Clone, Copy, Debug, PartialEq, Eq)]
pub struct BatchFailure {
    pub index: usize,
    pub stage: BatchStage,
    pub error: FrameError,
}

/// One request of a batch: its operation name and its payload, as bytes.
pub struct RawRequest {
    pub operation: Vec<u8>,
    pub payload: Vec<u8>,
}

/// A batch as read: the requests read in order, the failure that stopped
/// reading if one did, and the bytes left over.
pub struct Batch {
    pub requests: Vec<RawRequest>,
    pub failure: Option<BatchFailure>,
    pub remaining: Vec<u8>,
}

/// The mathematical value of a `Batch`.
pub struct BatchView {
    pub requests: Seq<(Seq<u8>, Seq<u8>)>,
    pub failure: Option<BatchFailure>,
    pub remaining: Seq<u8>,
}

impl View for RawRequest {
    type V = (Seq<u8>, Seq<u8>);

    open spec fn view(&self) -> (Seq<u8>, Seq<u8>) {
        (self.operation@, self.payload@)
    }
}

impl View for Batch {
    type V = BatchView;

    open spec fn view(&self) -> BatchView {
        BatchView {
            requests: self.requests@.map_values(|r: RawRequest| r@),
            failure: self.failure,
            remaining: self.remaining@,
        }
    }
}

/// What the server does once it has read the eight bytes that count the
/// requests of a batch.
#[derive(Clone, Copy, Debug, PartialEq, Eq)]
pub enum BatchStart {
    /// The batch is empty: read nothing more of it and wait for the next.
    Skip,
    /// Read the batch's length and body, then this many requests from it.
    Read { count: usize },
}

/// What the server does once it has handed on the requests of a batch.
#[derive(Clone, Copy, Debug, PartialEq, Eq)]
pub enum BatchEnd {
    /// A request could not be read: close the connection.
    Close { failure: BatchFailure },
    /// Wait for the next batch; `unconsumed` bytes of this one were not read.
    Continue { unconsumed: usize },
}

/// Decides from a batch's count header whether to read the batch.
pub fn batch_start(count_header: &[u8]) -> (r: BatchStart)
    requires
        count_header.len() >= 8,
    ensures
        be64_value(count_header@) as usize == 0 ==> r == BatchStart::Skip,
        be64_value(count_header@) as usize != 0 ==> r == (BatchStart::Read {
            count: be64_value(count_header@) as usize,
        }),
{
    let count = u64_from_be(count_header) as usize;
    if count == 0 {
        BatchStart::Skip
    } else {
        BatchStart::Read { count }
    }
}

/// Decides, after the requests read from a batch were handed on, whether
/// the connection goes on.
pub fn batch_end(batch: &Batch) -> (r: BatchEnd)
    ensures
        match batch.failure {
            Some(f) => r == (BatchEnd::Close { failure: f }),
            None => r == (BatchEnd::Continue { unconsumed: batch.remaining.len() }),
        },
{
    match batch.failure {
        Some(f) => BatchEnd::Close { failure: f },
        None => BatchEnd::Continue { unconsumed: batch.remaining.len() },
    }
}

/// Reading requests `index..count` of a batch from `buf`: each request is a
/// frame whose body is an operation frame followed by the payload. Reading
/// stops at the first frame that cannot be split.
pub open spec fn batch_from(index: nat, count: nat, buf: Seq<u8>) -> BatchView
    decreases count - index,
{
    if index >= count {
        BatchView { requests: Seq::empty(), failure: None, remaining: buf }
    } else {
        match split_frame(buf) {
            Err(e) => BatchView {
                requests: Seq::empty(),
                failure: Some(BatchFailure { index: index as usize, stage: BatchStage::Request, error: e }),
                remaining: buf,
            },
            Ok((request, rest)) => match split_frame(request) {
                Err(e) => BatchView {
                    requests: Seq::empty(),
                    failure: Some(BatchFailure { index: index as usize, stage: BatchStage::Operation, error: e }),
                    remaining: rest,
                },
                Ok((operation, payload)) => {
                    let tail = batch_from(index + 1, count, rest);
                    BatchView { requests: seq![(operation, payload)] + tail.requests, ..tail }
                },
            },
        }
    }
}

/// Reads `count` requests from the body of a batch.
pub fn split_batch(count: usize, buf: Vec<u8>) -> (r: Batch)
    ensures
        r@ == batch_from(0, count as nat, buf@),
{
    let mut requests: Vec<RawRequest> = Vec::new();
    let mut rem = buf;
    let mut i: usize = 0;
    while i < count
        invariant
            i <= count,
            ({
                let tail = batch_from(i as nat, count as nat, rem@);
                BatchView {
                    requests: requests@.map_values(|r: RawRequest| r@) + tail.requests,
                    ..tail
                } == batch_from(0, count as nat, buf@)
            }),
        decreases count - i,
    {
        let ghost before = requests@.map_values(|r: RawRequest| r@);
        match split_leading_frame(&rem) {
            Err(e) => {
                let failure = BatchFailure { index: i, stage: BatchStage::Request, error: e };
                let r = Batch { requests, failure: Some(failure), remaining: rem };
                assert(before + Seq::<(Seq<u8>, Seq<u8>)>::empty() =~= before);
                return r;
            },
            Ok((request, rest)) => {
                match Simplify(request) {
                    Err(e) => {
                        let failure = BatchFailure { index: i, stage: BatchStage::Operation, error: e };
                        let r = Batch { requests, failure: Some(failure), remaining: rest };
                        assert(before + Seq::<(Seq<u8>, Seq<u8>)>::empty() =~= before);
                        return r;
                    },
                    Ok((operation, payload)) => {
                        requests.push(RawRequest { operation, payload });
                        rem = rest;
                        i = i + 1;
                        let ghost tail = batch_from(i as nat, count as nat, rem@);
                        assert(requests@.map_values(|r: RawRequest| r@) =~= before.push(
                            (operation@, payload@),
                        ));
                        assert(requests@.map_values(|r: RawRequest| r@) + tail.requests =~= before
                            + (seq![(operation@, payload@)] + tail.requests));
                    },
                }
            },
        }
    }
    let r = Batch { requests, failure: None, remaining: rem };
    assert(r@.requests =~= requests@.map_values(|r: RawRequest| r@) + Seq::<
        (Seq<u8>, Seq<u8>),
    >::empty());
    r
}


/// The body of a batch holding `requests`, each an operation name and a
/// payload: every request is a frame holding the operation frame and the
/// payload.
pub open spec fn batch_bytes(requests: Seq<(Seq<u8>, Seq<u8>)>) -> Seq<u8>
    decreases requests.len(),
{
    if requests.len() == 0 {
        Seq::empty()
    } else {
        frame(frame(requests[0].0) + requests[0].1) + batch_bytes(requests.drop_first())
    }
}

/// Every request of `requests` fits, framed twice, in an address.
pub open spec fn batch_fits(requests: Seq<(Seq<u8>, Seq<u8>)>) -> bool {
    forall|i: int| 0 <= i < requests.len() ==> 16 + (#[trigger] requests[i]).0.len() + requests[i].1.len() <= usize::MAX
}

/// Reading as many requests as a well-formed batch holds gives back exactly
/// those requests, with no failure, and leaves what follows the batch.
pub proof fn lemma_batch_read_back(requests: Seq<(Seq<u8>, Seq<u8>)>, rest: Seq<u8>)
    requires
        batch_fits(requests),
    ensures
        batch_from(0, requests.len(), batch_bytes(requests) + rest) == (BatchView {
            requests,
            failure: None,
            remaining: rest,
        }),
{
    lemma_batch_read_back_from(0, requests, rest);
}

/// One step of reading a batch: a request whose two frames split.
proof fn lemma_batch_from_step(
    index: nat,
    count: nat,
    buf: Seq<u8>,
    request: Seq<u8>,
    after: Seq<u8>,
    op: Seq<u8>,
    payload: Seq<u8>,
)
    requires
        index < count,
        split_frame(buf) == Ok::<(Seq<u8>, Seq<u8>), FrameError>((request, after)),
        split_frame(request) == Ok::<(Seq<u8>, Seq<u8>), FrameError>((op, payload)),
    ensures
        batch_from(index, count, buf) == (BatchView {
            requests: seq![(op, payload)] + batch_from(index + 1, count, after).requests,
            ..batch_from(index + 1, count, after)
        }),
{
}

/// `lemma_batch_read_back`, reading from request `index` on.
#[verifier::spinoff_prover]
proof fn lemma_batch_read_back_from(index: nat, requests: Seq<(Seq<u8>, Seq<u8>)>, rest: Seq<u8>)
    requires
        batch_fits(requests),
    ensures
        batch_from(index, index + requests.len(), batch_bytes(requests) + rest) == (BatchView {
            requests,
            failure: None,
            remaining: rest,
        }),
    decreases requests.len(),
{
    if requests.len() == 0 {
        assert(batch_bytes(requests) + rest =~= rest);
        assert(requests =~= Seq::<(Seq<u8>, Seq<u8>)>::empty());
    } else {
        let op = requests[0].0;
        let payload = requests[0].1;
        let tail = requests.drop_first();
        assert(batch_fits(tail)) by {
            assert forall|i: int| 0 <= i < tail.len() implies 16 + (#[trigger] tail[i]).0.len() + tail[i].1.len() <= usize::MAX by {
                assert(tail[i] == requests[i + 1]);
            }
        }
        let request = frame(op) + payload;
        let after = batch_bytes(tail) + rest;
        let b = batch_bytes(requests) + rest;
        assert(b == frame(request) + after) by {
            assert(b =~= frame(request) + after);
        }
        assert(split_frame(b) == Ok::<(Seq<u8>, Seq<u8>), FrameError>((request, after))) by {
            assert(16 + op.len() + payload.len() <= usize::MAX);
            lemma_split_frame_of_frame(request, after);
        }
        assert(split_frame(request) == Ok::<(Seq<u8>, Seq<u8>), FrameError>((op, payload))) by {
            lemma_split_frame_of_frame(op, payload);
        }
        lemma_batch_read_back_from(index + 1, tail, rest);
        assert(index + 1 + tail.len() == index + requests.len());
        lemma_batch_from_step(index, index + requests.len(), b, request, after, op, payload);
        assert(seq![(op, payload)] + tail =~= requests);
    }
}

} // verus!
