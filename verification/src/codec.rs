//! The wire format: six-byte request frames and variable-length responses.
//!
//! A request frame is `[opcode][key][value: 4 bytes, little endian]`. A response
//! starts with a status byte; sequences are sent as a 32-bit little-endian count
//! followed by that many 32-bit little-endian values.

use vstd::prelude::*;

verus! {

/// Opcode of the command that appends a value to a key's sequence.
pub const OP_SET: u8 = 1;

/// Opcode of the command that reads a key's sequence.
pub const OP_GET: u8 = 2;

/// Opcode of the command that removes one key.
pub const OP_DELETE_BY_KEY: u8 = 3;

/// Opcode of the command that removes every key.
pub const OP_DELETE_ALL: u8 = 4;

/// Opcode of the command that lists every key with its sequence.
pub const OP_LIST_ALL: u8 = 5;

/// Status byte: the key is not in the store.
pub const STATUS_NOT_FOUND: u8 = 0;

/// Status byte: the command was carried out.
pub const STATUS_OK: u8 = 1;

/// Status byte: the frame's opcode is not one of the five commands.
pub const STATUS_BAD_REQUEST: u8 = 2;

/// Length in bytes of every request frame.
pub const FRAME_LEN: usize = 6;

/// The four bytes of a 32-bit value, least significant byte first.
pub open spec fn le_bytes(v: u32) -> Seq<u8> {
    seq![
        (v % 256) as u8,
        (v / 256 % 256) as u8,
        (v / 65536 % 256) as u8,
        (v / 16777216) as u8,
    ]
}

/// The 32-bit value whose little-endian bytes are `b0`, `b1`, `b2`, `b3`.
pub open spec fn le_value(b0: u8, b1: u8, b2: u8, b3: u8) -> u32 {
    (b0 + 256 * b1 + 65536 * b2 + 16777216 * b3) as u32
}

/// Reading back the bytes written for a value gives the value, and writing the
/// value read from four bytes gives those bytes.
pub proof fn lemma_le_round_trip(v: u32, b0: u8, b1: u8, b2: u8, b3: u8)
    ensures
        le_bytes(v).len() == 4,
        le_value(le_bytes(v)[0], le_bytes(v)[1], le_bytes(v)[2], le_bytes(v)[3]) == v,
        le_bytes(le_value(b0, b1, b2, b3)) == seq![b0, b1, b2, b3],
{
    assert((v % 256) + 256 * (v / 256 % 256) + 65536 * (v / 65536 % 256) + 16777216 * (v
        / 16777216) == v) by (bit_vector);
    assert(v / 16777216 < 256) by (bit_vector);
    let x: u32 = le_value(b0, b1, b2, b3);
    assert(x == b0 + 256 * b1 + 65536 * b2 + 16777216 * b3);
    assert(x % 256 == b0 && x / 256 % 256 == b1 && x / 65536 % 256 == b2 && x / 16777216 == b3)
        by (bit_vector)
        requires
            x == b0 + 256 * b1 + 65536 * b2 + 16777216 * b3,
    ;
    assert(le_bytes(x) =~= seq![b0, b1, b2, b3]);
}

/// Computes the value of four little-endian bytes.
pub fn u32_from_le(b0: u8, b1: u8, b2: u8, b3: u8) -> (v: u32)
    ensures
        v == le_value(b0, b1, b2, b3),
{
    let low: u32 = b0 as u32 + 256 * (b1 as u32);
    let mid: u32 = 65536 * (b2 as u32);
    let high: u32 = 16777216 * (b3 as u32);
    low + mid + high
}

/// Appends the four little-endian bytes of `v` to `out`.
pub fn push_u32_le(out: &mut Vec<u8>, v: u32)
    ensures
        final(out)@ == old(out)@ + le_bytes(v),
{
    out.push((v % 256) as u8);
    out.push((v / 256 % 256) as u8);
    out.push((v / 65536 % 256) as u8);
    out.push((v / 16777216) as u8);
    assert(out@ =~= old(out)@ + le_bytes(v));
}

/// A request to read or change the store.
#[derive(Clone, Copy, Debug, PartialEq, Eq, Structural)]
pub enum Command {
    /// Append `value` to the sequence of `key`.
    SetValue { key: u8, value: u32 },
    /// Read the sequence of `key`.
    Get { key: u8 },
    /// Remove `key` with its whole sequence.
    DeleteByKey { key: u8 },
    /// Remove every key.
    DeleteAll,
    /// Read every key with its sequence.
    ListAll,
}

/// What a request frame decodes to.
#[derive(Clone, Copy, Debug, PartialEq, Eq, Structural)]
pub enum Request {
    /// A frame that carries one of the five commands.
    Command(Command),
    /// A frame whose opcode names no command. It is answered with
    /// `STATUS_BAD_REQUEST` and never reaches the store.
    Unrecognized { opcode: u8 },
}

/// The answer to a `Get`.
#[derive(Debug, PartialEq, Eq)]
pub enum GetResponse {
    /// The key is present; a copy of its sequence.
    Found(Vec<u32>),
    /// The key is not present.
    NotFound,
}

/// The answer to a `ListAll`: every key that is present, each with a copy of
/// its sequence.
#[derive(Debug, PartialEq, Eq)]
pub struct ListAllResponse {
    pub entries: Vec<(u8, Vec<u32>)>,
}

/// The answer of the store to one command.
#[derive(Debug, PartialEq, Eq)]
pub enum Reply {
    /// A bare status byte: the answer to `SetValue`, `DeleteByKey` and `DeleteAll`.
    Status(u8),
    /// The answer to `Get`.
    Get(GetResponse),
    /// The answer to `ListAll`.
    ListAll(ListAllResponse),
}

/// A reply as a mathematical value: sequences in place of vectors.
pub enum ReplyView {
    Status(u8),
    Get(Option<Seq<u32>>),
    ListAll(Seq<(u8, Seq<u32>)>),
}

/// The entries of a listing as a sequence of pairs of a key and its values.
pub open spec fn entries_view(entries: Seq<(u8, Vec<u32>)>) -> Seq<(u8, Seq<u32>)> {
    Seq::new(entries.len(), |i: int| (entries[i].0, entries[i].1@))
}

impl View for GetResponse {
    type V = Option<Seq<u32>>;

    open spec fn view(&self) -> Option<Seq<u32>> {
        match self {
            GetResponse::Found(values) => Some(values@),
            GetResponse::NotFound => None,
        }
    }
}

impl View for ListAllResponse {
    type V = Seq<(u8, Seq<u32>)>;

    open spec fn view(&self) -> Seq<(u8, Seq<u32>)> {
        entries_view(self.entries@)
    }
}

impl View for Reply {
    type V = ReplyView;

    open spec fn view(&self) -> ReplyView {
        match self {
            Reply::Status(status) => ReplyView::Status(*status),
            Reply::Get(response) => ReplyView::Get(response@),
            Reply::ListAll(response) => ReplyView::ListAll(response@),
        }
    }
}

/// What a six-byte frame means: byte 0 selects the command, byte 1 is the
/// key, bytes 2 to 5 are the value. The value is read for every opcode and
/// kept only by `SetValue`.
pub open spec fn decode_spec(frame: Seq<u8>) -> Request {
    let key = frame[1];
    let value = le_value(frame[2], frame[3], frame[4], frame[5]);
    if frame[0] == OP_SET {
        Request::Command(Command::SetValue { key, value })
    } else if frame[0] == OP_GET {
        Request::Command(Command::Get { key })
    } else if frame[0] == OP_DELETE_BY_KEY {
        Request::Command(Command::DeleteByKey { key })
    } else if frame[0] == OP_DELETE_ALL {
        Request::Command(Command::DeleteAll)
    } else if frame[0] == OP_LIST_ALL {
        Request::Command(Command::ListAll)
    } else {
        Request::Unrecognized { opcode: frame[0] }
    }
}

/// Decodes one request frame. Every frame decodes: an opcode outside 1 to 5
/// gives `Request::Unrecognized`.
pub fn decode_request(frame: &[u8; 6]) -> (request: Request)
    ensures
        request == decode_spec(frame@),
{
    let op = frame[0];
    let key = frame[1];
    let value = u32_from_le(frame[2], frame[3], frame[4], frame[5]);
    if op == OP_SET {
        Request::Command(Command::SetValue { key, value })
    } else if op == OP_GET {
        Request::Command(Command::Get { key })
    } else if op == OP_DELETE_BY_KEY {
        Request::Command(Command::DeleteByKey { key })
    } else if op == OP_DELETE_ALL {
        Request::Command(Command::DeleteAll)
    } else if op == OP_LIST_ALL {
        Request::Command(Command::ListAll)
    } else {
        Request::Unrecognized { opcode: op }
    }
}

/// The count that precedes a sequence of `n` elements: `n` as a 32-bit
/// little-endian number. A count that does not fit in 32 bits is reduced
/// modulo 2^32; the elements that follow are not cut.
pub open spec fn count_bytes(n: nat) -> Seq<u8> {
    le_bytes((n % 0x1_0000_0000) as u32)
}

/// The values of a sequence on the wire, four little-endian bytes each, in
/// order.
pub open spec fn values_bytes(values: Seq<u32>) -> Seq<u8> {
    Seq::new(4 * values.len(), |i: int| le_bytes(values[i / 4])[i % 4])
}

/// A sequence on the wire: its count, then its values.
pub open spec fn sequence_bytes(values: Seq<u32>) -> Seq<u8> {
    count_bytes(values.len()) + values_bytes(values)
}

/// One entry of a listing on the wire: the key, then its sequence.
pub open spec fn entry_bytes(entry: (u8, Seq<u32>)) -> Seq<u8> {
    seq![entry.0] + sequence_bytes(entry.1)
}

/// The entries of a listing on the wire, one after the other, in order.
pub open spec fn entries_bytes(entries: Seq<(u8, Seq<u32>)>) -> Seq<u8> {
    entries.map_values(|entry: (u8, Seq<u32>)| entry_bytes(entry)).flatten()
}

/// The response to a `Get`: `[1][count][values]` when the key is present,
/// `[0]` when it is not.
pub open spec fn get_response_bytes(response: Option<Seq<u32>>) -> Seq<u8> {
    match response {
        Some(values) => seq![STATUS_OK] + sequence_bytes(values),
        None => seq![STATUS_NOT_FOUND],
    }
}

/// The response to a `ListAll`: `[1][number of keys]`, then each entry.
pub open spec fn list_all_response_bytes(entries: Seq<(u8, Seq<u32>)>) -> Seq<u8> {
    seq![STATUS_OK] + count_bytes(entries.len()) + entries_bytes(entries)
}

/// The response that carries a reply.
pub open spec fn reply_bytes(reply: ReplyView) -> Seq<u8> {
    match reply {
        ReplyView::Status(status) => seq![status],
        ReplyView::Get(response) => get_response_bytes(response),
        ReplyView::ListAll(entries) => list_all_response_bytes(entries),
    }
}

/// The bytes of a sequence with one more value are the bytes of the sequence
/// followed by the bytes of that value.
pub proof fn lemma_values_bytes_push(values: Seq<u32>, value: u32)
    ensures
        values_bytes(values.push(value)) == values_bytes(values) + le_bytes(value),
{
    assert(values_bytes(values.push(value)) =~= values_bytes(values) + le_bytes(value));
}

/// The bytes of a listing with one more entry are the bytes of the listing
/// followed by the bytes of that entry.
pub proof fn lemma_entries_bytes_push(entries: Seq<(u8, Seq<u32>)>, entry: (u8, Seq<u32>))
    ensures
        entries_bytes(entries.push(entry)) == entries_bytes(entries) + entry_bytes(entry),
{
    let f = |entry: (u8, Seq<u32>)| entry_bytes(entry);
    assert(entries.push(entry).map_values(f) =~= entries.map_values(f).push(entry_bytes(entry)));
    entries.map_values(f).lemma_flatten_push(entry_bytes(entry));
}

/// Appends the count of a sequence of `len` elements to `out`.
pub fn push_count(out: &mut Vec<u8>, len: usize)
    ensures
        final(out)@ == old(out)@ + count_bytes(len as nat),
{
    let wide: u64 = len as u64;
    push_u32_le(out, (wide % 0x1_0000_0000) as u32);
}

/// Appends a sequence to `out`: its count, then its values.
pub fn push_sequence(out: &mut Vec<u8>, values: &Vec<u32>)
    ensures
        final(out)@ == old(out)@ + sequence_bytes(values@),
{
    push_count(out, values.len());
    let ghost start = out@;
    let mut i: usize = 0;
    while i < values.len()
        invariant
            i <= values.len(),
            out@ == start + values_bytes(values@.take(i as int)),
        decreases values.len() - i,
    {
        push_u32_le(out, values[i]);
        proof {
            lemma_values_bytes_push(values@.take(i as int), values@[i as int]);
            assert(values@.take(i as int).push(values@[i as int]) =~= values@.take(i + 1));
        }
        i += 1;
    }
    assert(values@.take(values.len() as int) =~= values@);
}

/// Encodes a bare status response: the one byte `status`.
pub fn encode_status(status: u8) -> (out: Vec<u8>)
    ensures
        out@ == seq![status],
{
    let mut out: Vec<u8> = Vec::new();
    out.push(status);
    assert(out@ =~= seq![status]);
    out
}

/// Encodes the response to a `Get`.
pub fn encode_get(response: &GetResponse) -> (out: Vec<u8>)
    ensures
        out@ == get_response_bytes(response@),
{
    match response {
        GetResponse::Found(values) => {
            let mut out = encode_status(STATUS_OK);
            push_sequence(&mut out, values);
            out
        },
        GetResponse::NotFound => encode_status(STATUS_NOT_FOUND),
    }
}

/// Encodes the response to a `ListAll`.
pub fn encode_list_all(response: &ListAllResponse) -> (out: Vec<u8>)
    ensures
        out@ == list_all_response_bytes(response@),
{
    let mut out = encode_status(STATUS_OK);
    push_count(&mut out, response.entries.len());
    let ghost start = out@;
    let mut i: usize = 0;
    while i < response.entries.len()
        invariant
            i <= response.entries.len(),
            out@ == start + entries_bytes(response@.take(i as int)),
        decreases response.entries.len() - i,
    {
        let ghost before = out@;
        out.push(response.entries[i].0);
        push_sequence(&mut out, &response.entries[i].1);
        proof {
            let entry = response@[i as int];
            assert(out@ =~= before + entry_bytes(entry));
            lemma_entries_bytes_push(response@.take(i as int), entry);
            assert(response@.take(i as int).push(entry) =~= response@.take(i + 1));
        }
        i += 1;
    }
    assert(response@.take(response.entries.len() as int) =~= response@);
    out
}

/// Encodes the response that carries `reply`.
pub fn encode_reply(reply: &Reply) -> (out: Vec<u8>)
    ensures
        out@ == reply_bytes(reply@),
{
    match reply {
        Reply::Status(status) => encode_status(*status),
        Reply::Get(response) => encode_get(response),
        Reply::ListAll(response) => encode_list_all(response),
    }
}

} // verus!
