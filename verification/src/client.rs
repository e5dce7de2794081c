//! The client's side of the protocol: building request frames, reading a
//! response off a stream piece by piece, and looking into a response that was
//! read.

use crate::codec::{
    count_bytes, decode_spec, entries_bytes, entry_bytes, get_response_bytes, le_bytes, le_value,
    lemma_le_round_trip, list_all_response_bytes, reply_bytes, sequence_bytes, u32_from_le,
    values_bytes, Command, ReplyView, Request, OP_DELETE_ALL, OP_DELETE_BY_KEY, OP_GET, OP_LIST_ALL, OP_SET,
    STATUS_NOT_FOUND, STATUS_OK,
};
use crate::model::{is_reply_to, lemma_listing_at_most_256, lookup};
use vstd::prelude::*;

verus! {

/// The request frame for an opcode, a key and a value.
pub open spec fn request_bytes(opcode: u8, key: u8, value: u32) -> Seq<u8> {
    seq![opcode, key] + le_bytes(value)
}

/// Builds a request frame. The value is written for every opcode, also for
/// those that ignore it.
pub fn encode_request(opcode: u8, key: u8, value: u32) -> (frame: [u8; 6])
    ensures
        frame@ == request_bytes(opcode, key, value),
{
    let frame: [u8; 6] = [
        opcode,
        key,
        (value % 256) as u8,
        (value / 256 % 256) as u8,
        (value / 65536 % 256) as u8,
        (value / 16777216) as u8,
    ];
    assert(frame@ =~= request_bytes(opcode, key, value));
    frame
}

/// A frame built for one of the five opcodes decodes to that command with the
/// key it was built with, and for `OP_SET` with the value; a frame built for
/// any other opcode decodes as unrecognized.
pub proof fn lemma_request_round_trip(opcode: u8, key: u8, value: u32)
    ensures
        request_bytes(opcode, key, value).len() == 6,
        decode_spec(request_bytes(opcode, key, value)) == if opcode == OP_SET {
            Request::Command(Command::SetValue { key, value })
        } else if opcode == OP_GET {
            Request::Command(Command::Get { key })
        } else if opcode == OP_DELETE_BY_KEY {
            Request::Command(Command::DeleteByKey { key })
        } else if opcode == OP_DELETE_ALL {
            Request::Command(Command::DeleteAll)
        } else if opcode == OP_LIST_ALL {
            Request::Command(Command::ListAll)
        } else {
            Request::Unrecognized { opcode }
        },
{
}

/// What the reader of a response waits for next.
#[derive(Clone, Copy, Debug, PartialEq, Eq, Structural)]
pub enum ReaderState {
    /// The status byte.
    Status,
    /// The number of entries of a listing.
    KeyCount,
    /// The key of an entry, after which `entries_after` more entries come.
    Key { entries_after: u32 },
    /// The count of a sequence, after which `entries_after` more entries
    /// come.
    ValueCount { entries_after: u32 },
    /// A value of a sequence, after which `values_after` more values of that
    /// sequence and then `entries_after` more entries come.
    Value { values_after: u32, entries_after: u32 },
    /// Nothing more: the response is complete.
    Done,
}

/// The number of bytes of the piece that a state waits for: one for a status
/// or a key, four for a count or a value, none when the response is complete.
pub open spec fn wanted_len(state: ReaderState) -> nat {
    match state {
        ReaderState::Status => 1,
        ReaderState::Key { .. } => 1,
        ReaderState::KeyCount => 4,
        ReaderState::ValueCount { .. } => 4,
        ReaderState::Value { .. } => 4,
        ReaderState::Done => 0,
    }
}

/// What the reader waits for once a sequence is complete and
/// `entries_after` more entries come.
pub open spec fn next_entry(entries_after: u32) -> ReaderState {
    if entries_after == 0 {
        ReaderState::Done
    } else {
        ReaderState::Key { entries_after: (entries_after - 1) as u32 }
    }
}

/// The state of the reader after `piece`, a piece of the length that `state`
/// waits for, was read from the response to a request with `opcode`.
///
/// Only the answer `STATUS_OK` to `OP_GET` or `OP_LIST_ALL` has more than
/// the status byte: a sequence, or a number of entries and then each entry as
/// a key and a sequence.
pub open spec fn reader_next(opcode: u8, state: ReaderState, piece: Seq<u8>) -> ReaderState {
    let word = le_value(piece[0], piece[1], piece[2], piece[3]);
    match state {
        ReaderState::Status => if piece[0] == STATUS_OK && opcode == OP_GET {
            ReaderState::ValueCount { entries_after: 0 }
        } else if piece[0] == STATUS_OK && opcode == OP_LIST_ALL {
            ReaderState::KeyCount
        } else {
            ReaderState::Done
        },
        ReaderState::KeyCount => next_entry(word),
        ReaderState::Key { entries_after } => ReaderState::ValueCount { entries_after },
        ReaderState::ValueCount { entries_after } => if word == 0 {
            next_entry(entries_after)
        } else {
            ReaderState::Value { values_after: (word - 1) as u32, entries_after }
        },
        ReaderState::Value { values_after, entries_after } => if values_after == 0 {
            next_entry(entries_after)
        } else {
            ReaderState::Value { values_after: (values_after - 1) as u32, entries_after }
        },
        ReaderState::Done => ReaderState::Done,
    }
}

/// Reads one response off a stream. It says how many bytes it waits for,
/// takes them, and keeps every byte it took, until the response is complete.
pub struct ResponseReader {
    opcode: u8,
    state: ReaderState,
    response: Vec<u8>,
}

impl View for ResponseReader {
    type V = Seq<u8>;

    /// The bytes of the response taken so far.
    closed spec fn view(&self) -> Seq<u8> {
        self.response@
    }
}

impl ResponseReader {
    /// The opcode of the request whose response is read.
    pub closed spec fn spec_opcode(&self) -> u8 {
        self.opcode
    }

    /// What the reader waits for.
    pub closed spec fn spec_state(&self) -> ReaderState {
        self.state
    }

    /// Makes a reader for the response to a request with `opcode`. It waits
    /// for the status byte.
    pub fn new(opcode: u8) -> (reader: ResponseReader)
        ensures
            reader.spec_opcode() == opcode,
            reader.spec_state() == ReaderState::Status,
            reader@ == Seq::<u8>::empty(),
    {
        ResponseReader { opcode, state: ReaderState::Status, response: Vec::new() }
    }

    /// What the reader waits for.
    pub fn state(&self) -> (state: ReaderState)
        ensures
            state == self.spec_state(),
    {
        self.state
    }

    /// The number of bytes to read next; 0 when the response is complete.
    pub fn wanted(&self) -> (len: usize)
        ensures
            len == wanted_len(self.spec_state()),
    {
        match self.state {
            ReaderState::Status => 1,
            ReaderState::Key { .. } => 1,
            ReaderState::KeyCount => 4,
            ReaderState::ValueCount { .. } => 4,
            ReaderState::Value { .. } => 4,
            ReaderState::Done => 0,
        }
    }

    /// Takes the piece that was read. A piece of the length waited for is
    /// kept and moves the reader on; any other piece, and any piece once the
    /// response is complete, is refused and changes nothing.
    pub fn accept(&mut self, piece: &[u8]) -> (accepted: bool)
        ensures
            accepted == (!(old(self).spec_state() is Done) && piece@.len() == wanted_len(
                old(self).spec_state(),
            )),
            final(self).spec_opcode() == old(self).spec_opcode(),
            accepted ==> final(self).spec_state() == reader_next(
                old(self).spec_opcode(),
                old(self).spec_state(),
                piece@,
            ),
            accepted ==> final(self)@ == old(self)@ + piece@,
            !accepted ==> final(self).spec_state() == old(self).spec_state() && final(self)@
                == old(self)@,
    {
        if piece.len() != self.wanted() {
            return false;
        }
        let next = match self.state {
            ReaderState::Status => {
                if piece[0] == STATUS_OK && self.opcode == OP_GET {
                    ReaderState::ValueCount { entries_after: 0 }
                } else if piece[0] == STATUS_OK && self.opcode == OP_LIST_ALL {
                    ReaderState::KeyCount
                } else {
                    ReaderState::Done
                }
            },
            ReaderState::KeyCount => {
                next_entry_state(u32_from_le(piece[0], piece[1], piece[2], piece[3]))
            },
            ReaderState::Key { entries_after } => ReaderState::ValueCount { entries_after },
            ReaderState::ValueCount { entries_after } => {
                let count = u32_from_le(piece[0], piece[1], piece[2], piece[3]);
                if count == 0 {
                    next_entry_state(entries_after)
                } else {
                    ReaderState::Value { values_after: count - 1, entries_after }
                }
            },
            ReaderState::Value { values_after, entries_after } => {
                if values_after == 0 {
                    next_entry_state(entries_after)
                } else {
                    ReaderState::Value { values_after: values_after - 1, entries_after }
                }
            },
            ReaderState::Done => {
                return false;
            },
        };
        self.state = next;
        let mut i: usize = 0;
        while i < piece.len()
            invariant
                i <= piece.len(),
                self.opcode == old(self).opcode,
                self.state == next,
                self.response@ == old(self).response@ + piece@.take(i as int),
            decreases piece.len() - i,
        {
            self.response.push(piece[i]);
            assert(piece@.take(i as int).push(piece@[i as int]) =~= piece@.take(i + 1));
            i += 1;
        }
        assert(piece@.take(piece.len() as int) =~= piece@);
        true
    }

    /// The bytes of the response taken so far.
    pub fn response(&self) -> (bytes: &Vec<u8>)
        ensures
            bytes@ == self@,
    {
        &self.response
    }

    /// Gives up the reader for the bytes of the response it took.
    pub fn into_response(self) -> (bytes: Vec<u8>)
        ensures
            bytes@ == self@,
    {
        self.response
    }
}

/// What a reader in `state` makes of `bytes`: it takes piece after piece of
/// the length it waits for, until the response is complete or the bytes run
/// short. The result is the state it ends in and the bytes it did not take.
pub open spec fn read_from(opcode: u8, state: ReaderState, bytes: Seq<u8>) -> (
    ReaderState,
    Seq<u8>,
)
    decreases bytes.len(),
{
    let len = wanted_len(state) as int;
    if state is Done || bytes.len() < len {
        (state, bytes)
    } else {
        read_from(opcode, reader_next(opcode, state, bytes.take(len)), bytes.skip(len))
    }
}

/// A length that a 32-bit count can hold.
pub open spec fn fits_count(len: nat) -> bool {
    len < 0x1_0000_0000
}

/// A reader that waits for the first of some values takes exactly those
/// values.
proof fn lemma_reads_values(opcode: u8, values: Seq<u32>, entries_after: u32, rest: Seq<u8>)
    requires
        0 < values.len(),
        fits_count(values.len()),
    ensures
        read_from(
            opcode,
            ReaderState::Value { values_after: (values.len() - 1) as u32, entries_after },
            values_bytes(values) + rest,
        ) == read_from(opcode, next_entry(entries_after), rest),
    decreases values.len(),
{
    let bytes = values_bytes(values) + rest;
    let tail = values.skip(1);
    assert(bytes.skip(4) =~= values_bytes(tail) + rest);
    if values.len() > 1 {
        lemma_reads_values(opcode, tail, entries_after, rest);
    } else {
        assert(bytes.skip(4) =~= rest);
    }
}

/// A reader that waits for the count of a sequence takes exactly that
/// sequence.
proof fn lemma_reads_sequence(opcode: u8, values: Seq<u32>, entries_after: u32, rest: Seq<u8>)
    requires
        fits_count(values.len()),
    ensures
        read_from(
            opcode,
            ReaderState::ValueCount { entries_after },
            sequence_bytes(values) + rest,
        ) == read_from(opcode, next_entry(entries_after), rest),
{
    let bytes = sequence_bytes(values) + rest;
    let count = values.len() as u32;
    assert(bytes.take(4) =~= le_bytes(count));
    assert(bytes.skip(4) =~= values_bytes(values) + rest);
    lemma_le_round_trip(count, 0, 0, 0, 0);
    if values.len() > 0 {
        lemma_reads_values(opcode, values, entries_after, rest);
    } else {
        assert(bytes.skip(4) =~= rest);
    }
}

/// The bytes of a listing are the bytes of its first entry followed by the
/// bytes of the others.
proof fn lemma_entries_bytes_first(entries: Seq<(u8, Seq<u32>)>)
    requires
        entries.len() > 0,
    ensures
        entries_bytes(entries) == entry_bytes(entries[0]) + entries_bytes(entries.skip(1)),
{
    let f = |entry: (u8, Seq<u32>)| entry_bytes(entry);
    assert(entries.map_values(f).drop_first() =~= entries.skip(1).map_values(f));
}

/// Every sequence of the listing has a length that a 32-bit count can hold.
pub open spec fn entries_fit(entries: Seq<(u8, Seq<u32>)>) -> bool {
    forall|i: int| 0 <= i < entries.len() ==> fits_count((#[trigger] entries[i]).1.len())
}

/// A reader that waits for the key of the first of some entries takes
/// exactly those entries.
proof fn lemma_reads_entries(opcode: u8, entries: Seq<(u8, Seq<u32>)>, rest: Seq<u8>)
    requires
        0 < entries.len(),
        fits_count(entries.len()),
        entries_fit(entries),
    ensures
        read_from(
            opcode,
            ReaderState::Key { entries_after: (entries.len() - 1) as u32 },
            entries_bytes(entries) + rest,
        ) == (ReaderState::Done, rest),
    decreases entries.len(),
{
    let bytes = entries_bytes(entries) + rest;
    let tail = entries.skip(1);
    let after = (entries.len() - 1) as u32;
    lemma_entries_bytes_first(entries);
    assert(bytes.skip(1) =~= sequence_bytes(entries[0].1) + (entries_bytes(tail) + rest));
    lemma_reads_sequence(opcode, entries[0].1, after, entries_bytes(tail) + rest);
    if entries.len() > 1 {
        assert forall|i: int| 0 <= i < tail.len() implies fits_count((#[trigger] tail[i]).1.len()) by {
            assert(tail[i] == entries[i + 1]);
        }
        lemma_reads_entries(opcode, tail, rest);
    } else {
        assert(entries_bytes(tail) =~= Seq::<u8>::empty());
        assert(entries_bytes(tail) + rest =~= rest);
    }
}

/// The reader takes a whole response to `OP_GET` and nothing beyond it: after
/// the bytes that encode the answer it is done, with no byte left over and
/// none missing.
pub proof fn lemma_reader_takes_get_response(response: Option<Seq<u32>>, rest: Seq<u8>)
    requires
        response matches Some(values) ==> fits_count(values.len()),
    ensures
        read_from(OP_GET, ReaderState::Status, get_response_bytes(response) + rest) == (
            ReaderState::Done,
            rest,
        ),
{
    let bytes = get_response_bytes(response) + rest;
    assert(read_from(OP_GET, ReaderState::Done, rest) == (ReaderState::Done, rest));
    match response {
        Some(values) => {
            assert(bytes.take(1)[0] == STATUS_OK);
            assert(bytes.skip(1) =~= sequence_bytes(values) + rest);
            lemma_reads_sequence(OP_GET, values, 0, rest);
        },
        None => {
            assert(bytes.take(1)[0] == STATUS_NOT_FOUND);
            assert(bytes.skip(1) =~= rest);
        },
    }
}

/// The reader takes a whole response to `OP_LIST_ALL` and nothing beyond it.
pub proof fn lemma_reader_takes_list_all_response(entries: Seq<(u8, Seq<u32>)>, rest: Seq<u8>)
    requires
        fits_count(entries.len()),
        entries_fit(entries),
    ensures
        read_from(OP_LIST_ALL, ReaderState::Status, list_all_response_bytes(entries) + rest) == (
            ReaderState::Done,
            rest,
        ),
{
    let bytes = list_all_response_bytes(entries) + rest;
    let count = entries.len() as u32;
    let body = bytes.skip(1);
    assert(read_from(OP_LIST_ALL, ReaderState::Done, rest) == (ReaderState::Done, rest));
    assert(bytes.take(1)[0] == STATUS_OK);
    assert(read_from(OP_LIST_ALL, ReaderState::Status, bytes) == read_from(
        OP_LIST_ALL,
        ReaderState::KeyCount,
        body,
    ));
    assert(body =~= count_bytes(entries.len()) + (entries_bytes(entries) + rest));
    assert(body.take(4) =~= le_bytes(count));
    assert(body.skip(4) =~= entries_bytes(entries) + rest);
    lemma_le_round_trip(count, 0, 0, 0, 0);
    assert(reader_next(OP_LIST_ALL, ReaderState::KeyCount, body.take(4)) == next_entry(count));
    assert(read_from(OP_LIST_ALL, ReaderState::KeyCount, body) == read_from(
        OP_LIST_ALL,
        next_entry(count),
        body.skip(4),
    ));
    if entries.len() > 0 {
        lemma_reads_entries(OP_LIST_ALL, entries, rest);
    } else {
        assert(entries_bytes(entries) =~= Seq::<u8>::empty());
        assert(body.skip(4) =~= rest);
    }
}

/// A response that is a bare status byte is complete after that byte: any
/// status in answer to an opcode other than `OP_GET` and `OP_LIST_ALL`, and
/// any status but `STATUS_OK` in answer to those two.
pub proof fn lemma_reader_takes_status(opcode: u8, status: u8, rest: Seq<u8>)
    requires
        (opcode != OP_GET && opcode != OP_LIST_ALL) || status != STATUS_OK,
    ensures
        read_from(opcode, ReaderState::Status, seq![status] + rest) == (ReaderState::Done, rest),
{
    let bytes = seq![status] + rest;
    assert(bytes.take(1)[0] == status);
    assert(bytes.skip(1) =~= rest);
    assert(read_from(opcode, ReaderState::Done, rest) == (ReaderState::Done, rest));
}

/// The opcode that carries a command.
pub open spec fn opcode_of(command: Command) -> u8 {
    match command {
        Command::SetValue { .. } => OP_SET,
        Command::Get { .. } => OP_GET,
        Command::DeleteByKey { .. } => OP_DELETE_BY_KEY,
        Command::DeleteAll => OP_DELETE_ALL,
        Command::ListAll => OP_LIST_ALL,
    }
}

/// No sequence in the store is too long for a 32-bit count.
pub open spec fn sequences_fit(m: Map<u8, Seq<u32>>) -> bool {
    forall|k: u8| #[trigger] m.contains_key(k) ==> fits_count(m[k].len())
}

/// Whatever the store answers to a command, the reader for that command's
/// opcode takes the whole response that encodes the answer and nothing
/// beyond it, as long as no sequence in the store is too long for its count.
pub proof fn lemma_reader_takes_reply(
    m: Map<u8, Seq<u32>>,
    command: Command,
    reply: ReplyView,
    rest: Seq<u8>,
)
    requires
        sequences_fit(m),
        is_reply_to(m, command, reply),
    ensures
        read_from(opcode_of(command), ReaderState::Status, reply_bytes(reply) + rest) == (
            ReaderState::Done,
            rest,
        ),
{
    match command {
        Command::Get { key } => {
            lemma_reader_takes_get_response(lookup(m, key), rest);
        },
        Command::ListAll => {
            let entries = reply->ListAll_0;
            lemma_listing_at_most_256(entries, m);
            assert forall|i: int| 0 <= i < entries.len() implies fits_count(
                (#[trigger] entries[i]).1.len(),
            ) by {
                assert(m.contains_key(entries[i].0));
            }
            lemma_reader_takes_list_all_response(entries, rest);
        },
        Command::DeleteByKey { key } => {
            lemma_reader_takes_status(OP_DELETE_BY_KEY, reply->Status_0, rest);
        },
        Command::SetValue { key, value } => {
            lemma_reader_takes_status(OP_SET, STATUS_OK, rest);
        },
        Command::DeleteAll => {
            lemma_reader_takes_status(OP_DELETE_ALL, STATUS_OK, rest);
        },
    }
}

/// The response is not empty and starts with `STATUS_OK`.
pub open spec fn starts_ok(response: Seq<u8>) -> bool {
    response.len() > 0 && response[0] == STATUS_OK
}

/// Says whether the response starts with `STATUS_OK`.
pub fn is_ok(response: &[u8]) -> (ok: bool)
    ensures
        ok == starts_ok(response@),
{
    response.len() > 0 && response[0] == STATUS_OK
}

/// Says whether the response reports an absent key: it is empty or starts
/// with `STATUS_NOT_FOUND`.
pub fn reports_absent(response: &[u8]) -> (absent: bool)
    ensures
        absent == (response@.len() == 0 || response@[0] == STATUS_NOT_FOUND),
{
    response.len() == 0 || response[0] == STATUS_NOT_FOUND
}

/// The count field of a response that starts with a status and a count.
pub open spec fn count_of(response: Seq<u8>) -> u32 {
    le_value(response[1], response[2], response[3], response[4])
}

/// The first value of a response to `OP_GET`, if the response starts with
/// `STATUS_OK` and a count that is not zero and is long enough to hold as
/// many values as the count says.
pub open spec fn first_value_spec(response: Seq<u8>) -> Option<u32> {
    if response.len() >= 5 && response[0] == STATUS_OK && count_of(response) != 0
        && response.len() >= 5 + 4 * count_of(response) {
        Some(le_value(response[5], response[6], response[7], response[8]))
    } else {
        None
    }
}

/// Reads the first value out of a response to `OP_GET`.
pub fn first_value(response: &[u8]) -> (value: Option<u32>)
    ensures
        value == first_value_spec(response@),
{
    if response.len() < 5 || response[0] != STATUS_OK {
        return None;
    }
    let count = u32_from_le(response[1], response[2], response[3], response[4]);
    if count == 0 || (response.len() as u64) < 5 + 4 * (count as u64) {
        return None;
    }
    Some(u32_from_le(response[5], response[6], response[7], response[8]))
}

/// The first value of the response that encodes a sequence is the first
/// element of the sequence.
pub proof fn lemma_first_value_of_get_response(values: Seq<u32>)
    requires
        0 < values.len(),
        fits_count(values.len()),
    ensures
        first_value_spec(get_response_bytes(Some(values))) == Some(values[0]),
        first_value_spec(get_response_bytes(None)) is None,
{
    let bytes = get_response_bytes(Some(values));
    let count = values.len() as u32;
    lemma_le_round_trip(count, 0, 0, 0, 0);
    lemma_le_round_trip(values[0], 0, 0, 0, 0);
    assert(bytes.len() == 5 + 4 * values.len());
    assert(bytes[1] == le_bytes(count)[0]);
    assert(bytes[2] == le_bytes(count)[1]);
    assert(bytes[3] == le_bytes(count)[2]);
    assert(bytes[4] == le_bytes(count)[3]);
    assert(bytes[5] == le_bytes(values[0])[0]);
    assert(bytes[6] == le_bytes(values[0])[1]);
    assert(bytes[7] == le_bytes(values[0])[2]);
    assert(bytes[8] == le_bytes(values[0])[3]);
}

/// Computes what the reader waits for once a sequence is complete.
fn next_entry_state(entries_after: u32) -> (state: ReaderState)
    ensures
        state == next_entry(entries_after),
{
    if entries_after == 0 {
        ReaderState::Done
    } else {
        ReaderState::Key { entries_after: entries_after - 1 }
    }
}

} // verus!
