//! The requests a client sends and how the server reads them: operation
//! names, the payload of each operation, and the errors a request can meet.

use vstd::prelude::*;
use vstd::utf8::*;
use crate::wire::{
    be64_bytes, be64_value, frame, lemma_be64_value_of_bytes, lemma_split_frame_of_frame, push_bytes,
    push_frame, split_frame, u64_from_be, u64_to_be, FrameError, Simplify,
};
use crate::seqs::chars_equal;
use crate::text::{
    decimal, decode_text, is_white_space, lossy_text, push_decimal, push_utf8, trim, trim_chars,
    utf8_error_description, utf8_error_text, utf8_lossy,
};

verus! {

/// The name of the operation that creates a topic.
pub open spec fn topic_insert_name() -> Seq<char> {
    seq!['t', 'o', 'p', 'i', 'c', '_', 'i', 'n', 's', 'e', 'r', 't']
}

/// The name of the operation that appends a record to a topic.
pub open spec fn topic_data_insert_name() -> Seq<char> {
    seq!['t', 'o', 'p', 'i', 'c', '_', 'd', 'a', 't', 'a', '_', 'i', 'n', 's', 'e', 'r', 't']
}

/// The bytes of an operation name on the wire.
pub open spec fn name_bytes(name: Seq<char>) -> Seq<u8> {
    encode_utf8(name)
}

/// The bytes of the name `topic_insert`.
fn topic_insert_bytes() -> (r: Vec<u8>)
    ensures
        r@ == name_bytes(topic_insert_name()),
{
    let r: Vec<u8> = vec![116u8, 111, 112, 105, 99, 95, 105, 110, 115, 101, 114, 116];
    proof {
        let n = topic_insert_name();
        assert(is_ascii_chars(n));
        is_ascii_chars_encode_utf8(n);
        assert(r@ =~= encode_utf8(n));
    }
    r
}

/// The bytes of the name `topic_data_insert`.
fn topic_data_insert_bytes() -> (r: Vec<u8>)
    ensures
        r@ == name_bytes(topic_data_insert_name()),
{
    let r: Vec<u8> = vec![116u8, 111, 112, 105, 99, 95, 100, 97, 116, 97, 95, 105, 110, 115, 101, 114, 116];
    proof {
        let n = topic_data_insert_name();
        assert(is_ascii_chars(n));
        is_ascii_chars_encode_utf8(n);
        assert(r@ =~= encode_utf8(n));
    }
    r
}


/// The request that creates topic `topic` with `partition_no` partitions,
/// framed for sending: a frame holding the operation name frame, the topic
/// name frame and the partition count as eight big-endian bytes.
pub open spec fn topic_insert_request(topic: Seq<u8>, partition_no: u64) -> Seq<u8> {
    frame(name_bytes(topic_insert_name())) + frame(topic) + be64_bytes(partition_no)
}

/// The request that appends `value` under `key` to topic `topic`: the
/// operation name frame, then frames of the topic, the key (an empty frame
/// when there is no key) and the value.
pub open spec fn topic_data_request(topic: Seq<u8>, key: Option<Seq<u8>>, value: Seq<u8>) -> Seq<u8> {
    frame(name_bytes(topic_data_insert_name())) + frame(topic) + match key {
        Some(k) => frame(k),
        None => be64_bytes(0),
    } + frame(value)
}

/// The message a client sends to create a topic.
pub fn topic_insert_message(topic_name: &str, partition_no: u64) -> (r: Vec<u8>)
    ensures
        r@ == frame(topic_insert_request(encode_utf8(topic_name@), partition_no)),
{
    let op = topic_insert_bytes();
    let mut buf: Vec<u8> = Vec::new();
    push_frame(&mut buf, op.as_slice());
    push_frame(&mut buf, topic_name.as_bytes());
    let count = u64_to_be(partition_no);
    push_bytes(&mut buf, count.as_slice());
    let mut out: Vec<u8> = Vec::with_capacity(8);
    push_frame(&mut out, buf.as_slice());
    assert(buf@ =~= topic_insert_request(encode_utf8(topic_name@), partition_no));
    out
}

/// The message a client sends to append a record to a topic.
pub fn topic_data_message(topic: &str, key: Option<&str>, value: &str) -> (r: Vec<u8>)
    ensures
        r@ == frame(
            topic_data_request(
                encode_utf8(topic@),
                match key {
                    Some(k) => Some(encode_utf8(k@)),
                    None => None,
                },
                encode_utf8(value@),
            ),
        ),
{
    let op = topic_data_insert_bytes();
    let mut buf: Vec<u8> = Vec::new();
    push_frame(&mut buf, op.as_slice());
    push_frame(&mut buf, topic.as_bytes());
    match key {
        Some(k) => push_frame(&mut buf, k.as_bytes()),
        None => {
            let zero = u64_to_be(0);
            push_bytes(&mut buf, zero.as_slice());
        },
    }
    push_frame(&mut buf, value.as_bytes());
    let ghost k = match key {
        Some(k) => Some(encode_utf8(k@)),
        None => None,
    };
    assert(buf@ =~= topic_data_request(encode_utf8(topic@), k, encode_utf8(value@)));
    let mut out: Vec<u8> = Vec::with_capacity(8);
    push_frame(&mut out, buf.as_slice());
    out
}

/// What a request asks for.
pub enum Operation {
    /// Create (or replace) topic `name` with `partition_no` partitions.
    TopicInsert { name: Vec<u8>, partition_no: usize },
    /// Append `value` under `key` to topic `topic`.
    TopicData { topic: Vec<u8>, key: Vec<u8>, value: Vec<u8> },
}

/// The mathematical value of an `Operation`.
pub enum OperationView {
    TopicInsert { name: Seq<u8>, partition_no: usize },
    TopicData { topic: Seq<u8>, key: Seq<u8>, value: Seq<u8> },
}

impl View for Operation {
    type V = OperationView;

    open spec fn view(&self) -> OperationView {
        match self {
            Operation::TopicInsert { name, partition_no } => OperationView::TopicInsert {
                name: name@,
                partition_no: *partition_no,
            },
            Operation::TopicData { topic, key, value } => OperationView::TopicData {
                topic: topic@,
                key: key@,
                value: value@,
            },
        }
    }
}

/// Why the broker refused a request or a setting.
pub enum BrokerError {
    /// A frame of the payload could not be split.
    Frame(FrameError),
    /// The operation name (these bytes) is not valid UTF-8.
    InvalidOperationUtf8(Vec<u8>),
    /// After the topic name, the payload of `topic_insert` held this many
    /// bytes instead of eight.
    PartitionPayloadLength(usize),
    /// A topic was asked for with no partitions.
    ZeroPartitions,
    /// The topic name (these bytes) is not valid UTF-8.
    InvalidTopicName(Vec<u8>),
    /// No topic of this name exists.
    UnknownTopic(Vec<u8>),
    /// The operation name, trimmed, names no operation.
    UnknownOperation(Vec<char>),
    /// A broker was asked for with no shards.
    ZeroShards,
}

/// The mathematical value of a `BrokerError`.
pub enum BrokerErrorView {
    Frame(FrameError),
    InvalidOperationUtf8(Seq<u8>),
    PartitionPayloadLength(usize),
    ZeroPartitions,
    InvalidTopicName(Seq<u8>),
    UnknownTopic(Seq<u8>),
    UnknownOperation(Seq<char>),
    ZeroShards,
}

impl View for BrokerError {
    type V = BrokerErrorView;

    open spec fn view(&self) -> BrokerErrorView {
        match self {
            BrokerError::Frame(e) => BrokerErrorView::Frame(*e),
            BrokerError::InvalidOperationUtf8(b) => BrokerErrorView::InvalidOperationUtf8(b@),
            BrokerError::PartitionPayloadLength(n) => BrokerErrorView::PartitionPayloadLength(*n),
            BrokerError::ZeroPartitions => BrokerErrorView::ZeroPartitions,
            BrokerError::InvalidTopicName(b) => BrokerErrorView::InvalidTopicName(b@),
            BrokerError::UnknownTopic(b) => BrokerErrorView::UnknownTopic(b@),
            BrokerError::UnknownOperation(c) => BrokerErrorView::UnknownOperation(c@),
            BrokerError::ZeroShards => BrokerErrorView::ZeroShards,
        }
    }
}

/// How the server reads the payload of a `topic_insert` request.
pub open spec fn topic_insert_payload(payload: Seq<u8>) -> Result<OperationView, BrokerErrorView> {
    match split_frame(payload) {
        Err(e) => Err(BrokerErrorView::Frame(e)),
        Ok((name, rest)) => if rest.len() != 8 {
            Err(BrokerErrorView::PartitionPayloadLength(rest.len() as usize))
        } else if be64_value(rest) as usize == 0 {
            Err(BrokerErrorView::ZeroPartitions)
        } else {
            Ok(OperationView::TopicInsert { name, partition_no: be64_value(rest) as usize })
        },
    }
}

/// How the server reads the payload of a `topic_data_insert` request:
/// three frames, topic, key and value; what follows the value is ignored.
pub open spec fn topic_data_payload(payload: Seq<u8>) -> Result<OperationView, BrokerErrorView> {
    match split_frame(payload) {
        Err(e) => Err(BrokerErrorView::Frame(e)),
        Ok((topic, rest)) => match split_frame(rest) {
            Err(e) => Err(BrokerErrorView::Frame(e)),
            Ok((key, rest2)) => match split_frame(rest2) {
                Err(e) => Err(BrokerErrorView::Frame(e)),
                Ok((value, _)) => Ok(OperationView::TopicData { topic, key, value }),
            },
        },
    }
}

/// How the server reads a request: the operation name must be UTF-8, and
/// once trimmed of whitespace it selects how the payload is read.
pub open spec fn read_request(operation: Seq<u8>, payload: Seq<u8>) -> Result<OperationView, BrokerErrorView> {
    if !valid_utf8(operation) {
        Err(BrokerErrorView::InvalidOperationUtf8(operation))
    } else if trim(decode_utf8(operation)) == topic_insert_name() {
        topic_insert_payload(payload)
    } else if trim(decode_utf8(operation)) == topic_data_insert_name() {
        topic_data_payload(payload)
    } else {
        Err(BrokerErrorView::UnknownOperation(trim(decode_utf8(operation))))
    }
}

/// The view of a decoding result.
pub open spec fn operation_result_view(r: Result<Operation, BrokerError>) -> Result<OperationView, BrokerErrorView> {
    match r {
        Ok(op) => Ok(op@),
        Err(e) => Err(e@),
    }
}

/// Reads the payload of a `topic_insert` request.
fn decode_topic_insert(payload: Vec<u8>) -> (r: Result<Operation, BrokerError>)
    ensures
        operation_result_view(r) == topic_insert_payload(payload@),
{
    match Simplify(payload) {
        Err(e) => Err(BrokerError::Frame(e)),
        Ok((name, rest)) => {
            if rest.len() != 8 {
                return Err(BrokerError::PartitionPayloadLength(rest.len()));
            }
            let partition_no = u64_from_be(rest.as_slice()) as usize;
            if partition_no == 0 {
                return Err(BrokerError::ZeroPartitions);
            }
            Ok(Operation::TopicInsert { name, partition_no })
        },
    }
}

/// Reads the payload of a `topic_data_insert` request.
fn decode_topic_data(payload: Vec<u8>) -> (r: Result<Operation, BrokerError>)
    ensures
        operation_result_view(r) == topic_data_payload(payload@),
{
    match Simplify(payload) {
        Err(e) => Err(BrokerError::Frame(e)),
        Ok((topic, rest)) => match Simplify(rest) {
            Err(e) => Err(BrokerError::Frame(e)),
            Ok((key, rest2)) => match Simplify(rest2) {
                Err(e) => Err(BrokerError::Frame(e)),
                Ok((value, _)) => Ok(Operation::TopicData { topic, key, value }),
            },
        },
    }
}

/// Reads a request from its operation name and payload.
pub fn decode_operation(operation: Vec<u8>, payload: Vec<u8>) -> (r: Result<Operation, BrokerError>)
    ensures
        r matches Err(e) ==> error_wf(e@),
        operation_result_view(r) == read_request(operation@, payload@),
{
    let text = match decode_text(operation.as_slice()) {
        None => return Err(BrokerError::InvalidOperationUtf8(operation)),
        Some(t) => t,
    };
    let name = trim_chars(&text);
    let insert: Vec<char> = vec!['t', 'o', 'p', 'i', 'c', '_', 'i', 'n', 's', 'e', 'r', 't'];
    let data: Vec<char> = vec![
        't', 'o', 'p', 'i', 'c', '_', 'd', 'a', 't', 'a', '_', 'i', 'n', 's', 'e', 'r', 't'
    ];
    assert(insert@ =~= topic_insert_name());
    assert(data@ =~= topic_data_insert_name());
    if chars_equal(name.as_slice(), insert.as_slice()) {
        decode_topic_insert(payload)
    } else if chars_equal(name.as_slice(), data.as_slice()) {
        decode_topic_data(payload)
    } else {
        Err(BrokerError::UnknownOperation(name))
    }
}


/// An operation name, sent as UTF-8, reads back as itself: it is valid
/// UTF-8 and has no whitespace to trim at either end.
proof fn lemma_name_reads_back(name: Seq<char>)
    requires
        name.len() > 0,
        !is_white_space(name[0]),
        !is_white_space(name.last()),
    ensures
        valid_utf8(name_bytes(name)),
        trim(decode_utf8(name_bytes(name))) == name,
{
    encode_utf8_valid_utf8(name);
    encode_utf8_decode_utf8(name);
}

/// The message a client sends to create a topic holds one request; the
/// server splits it into the `topic_insert` operation and a payload, which
/// splits into the topic name and the count's eight big-endian bytes and
/// reads as the same topic name and partition count (and refuses with
/// `ZeroPartitions` when the count is zero as an address-sized number).
pub proof fn lemma_topic_insert_read_back(topic: Seq<u8>, partition_no: u64)
    requires
        topic.len() + 44 <= usize::MAX,
    ensures
        ({
            let request = topic_insert_request(topic, partition_no);
            let payload = frame(topic) + be64_bytes(partition_no);
            &&& split_frame(frame(request)) == Ok::<(Seq<u8>, Seq<u8>), FrameError>((request, Seq::empty()))
            &&& split_frame(request) == Ok::<(Seq<u8>, Seq<u8>), FrameError>(
                (name_bytes(topic_insert_name()), payload),
            )
            &&& split_frame(payload) == Ok::<(Seq<u8>, Seq<u8>), FrameError>(
                (topic, be64_bytes(partition_no)),
            )
            &&& read_request(name_bytes(topic_insert_name()), payload) == if partition_no as usize == 0 {
                Err::<OperationView, BrokerErrorView>(BrokerErrorView::ZeroPartitions)
            } else {
                Ok::<OperationView, BrokerErrorView>(
                    OperationView::TopicInsert { name: topic, partition_no: partition_no as usize },
                )
            }
        }),
{
    let op = name_bytes(topic_insert_name());
    let request = topic_insert_request(topic, partition_no);
    let payload = frame(topic) + be64_bytes(partition_no);
    is_ascii_chars_encode_utf8(topic_insert_name());
    assert(op.len() == 12);
    lemma_split_frame_of_frame(request, Seq::empty());
    assert(frame(request) + Seq::<u8>::empty() =~= frame(request));
    lemma_split_frame_of_frame(op, payload);
    assert(frame(op) + payload =~= request);
    lemma_name_reads_back(topic_insert_name());
    lemma_split_frame_of_frame(topic, be64_bytes(partition_no));
    lemma_be64_value_of_bytes(partition_no);
}

/// The message a client sends to append a record holds one request; the
/// server splits it into the `topic_data_insert` operation and reads its
/// payload as the same topic, key and value, a missing key reading as the
/// empty key.
#[verifier::spinoff_prover]
#[verifier::rlimit(40)]
pub proof fn lemma_topic_data_read_back(topic: Seq<u8>, key: Option<Seq<u8>>, value: Seq<u8>)
    requires
        topic.len() + match key {
            Some(k) => k.len(),
            None => 0nat,
        } + value.len() + 65 <= usize::MAX,
    ensures
        ({
            let request = topic_data_request(topic, key, value);
            let key_frame = match key {
                Some(k) => frame(k),
                None => be64_bytes(0),
            };
            let payload = frame(topic) + key_frame + frame(value);
            &&& split_frame(frame(request)) == Ok::<(Seq<u8>, Seq<u8>), FrameError>((request, Seq::empty()))
            &&& split_frame(request) == Ok::<(Seq<u8>, Seq<u8>), FrameError>(
                (name_bytes(topic_data_insert_name()), payload),
            )
            &&& read_request(name_bytes(topic_data_insert_name()), payload) == Ok::<
                OperationView,
                BrokerErrorView,
            >(
                OperationView::TopicData {
                    topic,
                    key: match key {
                        Some(k) => k,
                        None => Seq::empty(),
                    },
                    value,
                },
            )
        }),
{
    let op = name_bytes(topic_data_insert_name());
    let request = topic_data_request(topic, key, value);
    let k = match key {
        Some(k) => k,
        None => Seq::<u8>::empty(),
    };
    let key_frame = match key {
        Some(k) => frame(k),
        None => be64_bytes(0),
    };
    assert(key_frame =~= frame(k));
    let payload = frame(topic) + key_frame + frame(value);
    assert(op.len() == 17) by {
        is_ascii_chars_encode_utf8(topic_data_insert_name());
    }
    assert(split_frame(frame(request)) == Ok::<(Seq<u8>, Seq<u8>), FrameError>((request, Seq::empty()))) by {
        lemma_split_frame_of_frame(request, Seq::empty());
        assert(frame(request) + Seq::<u8>::empty() =~= frame(request));
    }
    assert(split_frame(request) == Ok::<(Seq<u8>, Seq<u8>), FrameError>((op, payload))) by {
        lemma_split_frame_of_frame(op, payload);
        assert(frame(op) + payload =~= request);
    }
    lemma_data_payload_read_back(topic, k, value);
    lemma_read_request_data(payload);
}

/// A request naming `topic_data_insert` has its payload read as three frames.
pub proof fn lemma_read_request_data(payload: Seq<u8>)
    ensures
        read_request(name_bytes(topic_data_insert_name()), payload) == topic_data_payload(payload),
{
    lemma_name_reads_back(topic_data_insert_name());
    assert(topic_data_insert_name() != topic_insert_name()) by {
        assert(topic_data_insert_name().len() != topic_insert_name().len());
    }
}

/// The payload of a `topic_data_insert` request reads back as its topic,
/// key and value.
pub proof fn lemma_data_payload_read_back(topic: Seq<u8>, key: Seq<u8>, value: Seq<u8>)
    requires
        topic.len() + key.len() + value.len() + 65 <= usize::MAX,
    ensures
        topic_data_payload(frame(topic) + frame(key) + frame(value)) == Ok::<OperationView, BrokerErrorView>(
            OperationView::TopicData { topic, key, value },
        ),
{
    let payload = frame(topic) + frame(key) + frame(value);
    lemma_split_frame_of_frame(topic, frame(key) + frame(value));
    assert(frame(topic) + (frame(key) + frame(value)) =~= payload);
    lemma_split_frame_of_frame(key, frame(value));
    lemma_split_frame_of_frame(value, Seq::empty());
    assert(frame(value) + Seq::<u8>::empty() =~= frame(value));
}


/// The UTF-8 bytes of the text `s`.
pub open spec fn text(s: &str) -> Seq<u8> {
    encode_utf8(s@)
}

/// Appends the UTF-8 bytes of `s` to `out`.
fn push_text(out: &mut Vec<u8>, s: &str)
    ensures
        final(out)@ == old(out)@ + text(s),
{
    push_bytes(out, s.as_bytes());
}

/// The text that explains a frame error.
pub open spec fn frame_error_message(e: FrameError) -> Seq<u8> {
    match e {
        FrameError::TooShort { len } => text("Buffer too short: ") + decimal(len as nat) + text(
            " bytes, expected at least 8",
        ),
        FrameError::LengthOverflow { .. } => text("Length overflow"),
        FrameError::Truncated { declared, available } => text("Invalid buffer length: declared ")
            + decimal(declared as nat) + text(", available ") + decimal(available as nat),
    }
}

/// The text the server sends back, as the body of a failure record, for a
/// refused request (and prints for a refused setting).
pub open spec fn error_message(e: BrokerErrorView) -> Seq<u8> {
    match e {
        BrokerErrorView::Frame(f) => frame_error_message(f),
        BrokerErrorView::InvalidOperationUtf8(b) => text("Invalid operation UTF-8: ") + utf8_error_text(b),
        BrokerErrorView::PartitionPayloadLength(n) => text(
            "Invalid partition count payload: expected 8 bytes, got ",
        ) + decimal(n as nat),
        BrokerErrorView::ZeroPartitions => text("Partition count cannot be zero"),
        BrokerErrorView::InvalidTopicName(b) => text("Invalid UTF-8 topic name: ") + utf8_error_text(b),
        BrokerErrorView::UnknownTopic(n) => text("Topic '") + utf8_lossy(n) + text("' does not exist"),
        BrokerErrorView::UnknownOperation(c) => text("Unknown operation: ") + encode_utf8(c),
        BrokerErrorView::ZeroShards => text("Shard count cannot be zero"),
    }
}

/// The text that explains `e`.
pub fn frame_error_text(e: &FrameError) -> (r: Vec<u8>)
    ensures
        r@ == frame_error_message(*e),
{
    let mut out: Vec<u8> = Vec::new();
    match e {
        FrameError::TooShort { len } => {
            push_text(&mut out, "Buffer too short: ");
            push_decimal(&mut out, *len);
            push_text(&mut out, " bytes, expected at least 8");
        },
        FrameError::LengthOverflow { .. } => {
            push_text(&mut out, "Length overflow");
        },
        FrameError::Truncated { declared, available } => {
            push_text(&mut out, "Invalid buffer length: declared ");
            push_decimal(&mut out, *declared);
            push_text(&mut out, ", available ");
            push_decimal(&mut out, *available);
        },
    }
    assert(out@ =~= frame_error_message(*e));
    out
}

/// Whether the error carries bytes that are not UTF-8 only where its
/// kind says so: the names refused for not being UTF-8.
pub open spec fn error_wf(e: BrokerErrorView) -> bool {
    match e {
        BrokerErrorView::InvalidOperationUtf8(b) => !valid_utf8(b),
        BrokerErrorView::InvalidTopicName(b) => !valid_utf8(b),
        _ => true,
    }
}

impl BrokerError {
    /// The text that explains this error.
    pub fn message(&self) -> (r: Vec<u8>)
        requires
            error_wf(self@),
        ensures
            r@ == error_message(self@),
    {
        let mut out: Vec<u8> = Vec::new();
        match self {
            BrokerError::Frame(f) => {
                let t = frame_error_text(f);
                push_bytes(&mut out, t.as_slice());
            },
            BrokerError::InvalidOperationUtf8(b) => {
                push_text(&mut out, "Invalid operation UTF-8: ");
                let t = utf8_error_description(b.as_slice());
                push_bytes(&mut out, t.as_slice());
            },
            BrokerError::PartitionPayloadLength(n) => {
                push_text(&mut out, "Invalid partition count payload: expected 8 bytes, got ");
                push_decimal(&mut out, *n);
            },
            BrokerError::ZeroPartitions => {
                push_text(&mut out, "Partition count cannot be zero");
            },
            BrokerError::InvalidTopicName(b) => {
                push_text(&mut out, "Invalid UTF-8 topic name: ");
                let t = utf8_error_description(b.as_slice());
                push_bytes(&mut out, t.as_slice());
            },
            BrokerError::UnknownTopic(n) => {
                push_text(&mut out, "Topic '");
                let t = lossy_text(n.as_slice());
                push_bytes(&mut out, t.as_slice());
                push_text(&mut out, "' does not exist");
            },
            BrokerError::UnknownOperation(c) => {
                push_text(&mut out, "Unknown operation: ");
                push_utf8(&mut out, c.as_slice());
            },
            BrokerError::ZeroShards => {
                push_text(&mut out, "Shard count cannot be zero");
            },
        }
        assert(out@ =~= error_message(self@));
        out
    }
}

} // verus!
