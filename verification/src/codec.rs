//! The record codec: a `LogEntry` serialized to and parsed from bytes.
//!
//! Framing, all integers little-endian:
//!
//! ```text
//! Put    := TAG_PUT    key_len: u64  key: [u8]  value_len: u64  value: [u8]
//! Remove := TAG_REMOVE key_len: u64  key: [u8]
//! ```
//!
//! Keys and values are stored as their UTF-8 bytes, with the byte length in
//! front, so every record is self-delimiting: parsing at a record boundary
//! consumes exactly one record and stops at the next boundary.

use vstd::prelude::*;
use vstd::utf8::{valid_utf8, decode_utf8, encode_utf8};

verus! {

/// Tag byte that starts a `Put` record.
pub const TAG_PUT: u8 = 0;

/// Tag byte that starts a `Remove` record.
pub const TAG_REMOVE: u8 = 1;

/// A single command recorded in the log.
pub enum LogEntry {
    /// Bind `key` to `value`.
    Put { key: String, value: String },
    /// Unbind `key`.
    Remove { key: String },
}

/// The mathematical value of a [`LogEntry`]: the same tagged record over
/// character sequences.
pub enum EntryModel {
    Put { key: Seq<char>, value: Seq<char> },
    Remove { key: Seq<char> },
}

impl View for LogEntry {
    type V = EntryModel;

    open spec fn view(&self) -> EntryModel {
        match self {
            LogEntry::Put { key, value } => EntryModel::Put { key: key@, value: value@ },
            LogEntry::Remove { key } => EntryModel::Remove { key: key@ },
        }
    }
}

/// The eight little-endian bytes of `n`.
pub open spec fn u64_le_bytes(n: u64) -> Seq<u8> {
    seq![
        (n & 0xff) as u8,
        ((n >> 8) & 0xff) as u8,
        ((n >> 16) & 0xff) as u8,
        ((n >> 24) & 0xff) as u8,
        ((n >> 32) & 0xff) as u8,
        ((n >> 40) & 0xff) as u8,
        ((n >> 48) & 0xff) as u8,
        ((n >> 56) & 0xff) as u8,
    ]
}

/// The `u64` read little-endian from eight bytes.
pub open spec fn u64_from_le(b0: u8, b1: u8, b2: u8, b3: u8, b4: u8, b5: u8, b6: u8, b7: u8) -> u64 {
    (b0 as u64) | ((b1 as u64) << 8) | ((b2 as u64) << 16) | ((b3 as u64) << 24)
        | ((b4 as u64) << 32) | ((b5 as u64) << 40) | ((b6 as u64) << 48) | ((b7 as u64) << 56)
}

/// Reading back the eight little-endian bytes of `n` yields `n`.
pub proof fn lemma_u64_le_round_trip(n: u64)
    ensures
        u64_from_le(
            u64_le_bytes(n)[0],
            u64_le_bytes(n)[1],
            u64_le_bytes(n)[2],
            u64_le_bytes(n)[3],
            u64_le_bytes(n)[4],
            u64_le_bytes(n)[5],
            u64_le_bytes(n)[6],
            u64_le_bytes(n)[7],
        ) == n,
{
    assert((((n & 0xff) as u8) as u64) | ((((n >> 8) & 0xff) as u8) as u64) << 8
        | ((((n >> 16) & 0xff) as u8) as u64) << 16 | ((((n >> 24) & 0xff) as u8) as u64) << 24
        | ((((n >> 32) & 0xff) as u8) as u64) << 32 | ((((n >> 40) & 0xff) as u8) as u64) << 40
        | ((((n >> 48) & 0xff) as u8) as u64) << 48 | ((((n >> 56) & 0xff) as u8) as u64) << 56
        == n) by (bit_vector);
}

/// Appends the eight little-endian bytes of `n` to `out`.
pub fn push_u64_le(out: &mut Vec<u8>, n: u64)
    ensures
        final(out)@ == old(out)@ + u64_le_bytes(n),
{
    let b0: u8 = low_byte(n);
    let b1: u8 = low_byte(n >> 8);
    let b2: u8 = low_byte(n >> 16);
    let b3: u8 = low_byte(n >> 24);
    let b4: u8 = low_byte(n >> 32);
    let b5: u8 = low_byte(n >> 40);
    let b6: u8 = low_byte(n >> 48);
    let b7: u8 = low_byte(n >> 56);
    out.push(b0);
    out.push(b1);
    out.push(b2);
    out.push(b3);
    out.push(b4);
    out.push(b5);
    out.push(b6);
    out.push(b7);
    assert(final(out)@ =~= old(out)@ + u64_le_bytes(n));
}

/// The low eight bits of `x`.
fn low_byte(x: u64) -> (r: u8)
    ensures
        r == (x & 0xff) as u8,
{
    assert(x & 0xff <= 0xff) by (bit_vector);
    (x & 0xff) as u8
}

/// The `u64` stored little-endian at `pos`.  Meaningful only when
/// `pos + 8 <= bytes.len()`.
pub open spec fn parse_len_at(bytes: Seq<u8>, pos: int) -> u64 {
    u64_from_le(
        bytes[pos],
        bytes[pos + 1],
        bytes[pos + 2],
        bytes[pos + 3],
        bytes[pos + 4],
        bytes[pos + 5],
        bytes[pos + 6],
        bytes[pos + 7],
    )
}

/// A length-prefixed UTF-8 string field: byte length as little-endian
/// `u64`, then that many bytes of UTF-8.
pub open spec fn encode_string(s: Seq<char>) -> Seq<u8> {
    u64_le_bytes(encode_utf8(s).len() as u64) + encode_utf8(s)
}

/// The byte encoding of one record.
pub open spec fn encode_entry(e: EntryModel) -> Seq<u8> {
    match e {
        EntryModel::Put { key, value } => seq![TAG_PUT] + encode_string(key) + encode_string(value),
        EntryModel::Remove { key } => seq![TAG_REMOVE] + encode_string(key),
    }
}

/// True when each field's UTF-8 form fits the `u64` length prefix.  Every
/// entry held in executable strings satisfies this.
pub open spec fn entry_fits(e: EntryModel) -> bool {
    match e {
        EntryModel::Put { key, value } => encode_utf8(key).len() <= u64::MAX
            && encode_utf8(value).len() <= u64::MAX,
        EntryModel::Remove { key } => encode_utf8(key).len() <= u64::MAX,
    }
}

/// Outcome of parsing one string field.
pub enum FieldOutcome {
    /// The field runs past the end of the log.
    Incomplete,
    /// The payload is not valid UTF-8.
    Malformed,
    /// The decoded characters, and the position just past the field.
    Value { s: Seq<char>, next: int },
}

/// Parses one length-prefixed UTF-8 string field at `pos`.
pub open spec fn parse_string(bytes: Seq<u8>, pos: int) -> FieldOutcome {
    if pos + 8 > bytes.len() {
        FieldOutcome::Incomplete
    } else {
        let n = parse_len_at(bytes, pos) as int;
        if pos + 8 + n > bytes.len() {
            FieldOutcome::Incomplete
        } else {
            let payload = bytes.subrange(pos + 8, pos + 8 + n);
            if valid_utf8(payload) {
                FieldOutcome::Value { s: decode_utf8(payload), next: pos + 8 + n }
            } else {
                FieldOutcome::Malformed
            }
        }
    }
}

/// Outcome of parsing one record.
pub enum ParseOutcome {
    /// The position is exactly the end of the log: a clean boundary.
    EndOfInput,
    /// Bytes remain, but the record runs past the end of the log (a torn
    /// tail).
    Incomplete,
    /// The bytes at the position cannot begin any record.
    Malformed,
    /// One record, and the position just past it.
    Parsed { entry: EntryModel, next: int },
}

/// Parses one record at `pos`.  Meaningful for `0 <= pos <= bytes.len()`.
pub open spec fn parse_record(bytes: Seq<u8>, pos: int) -> ParseOutcome {
    if pos >= bytes.len() {
        ParseOutcome::EndOfInput
    } else {
        let tag = bytes[pos];
        if tag == TAG_PUT {
            match parse_string(bytes, pos + 1) {
                FieldOutcome::Incomplete => ParseOutcome::Incomplete,
                FieldOutcome::Malformed => ParseOutcome::Malformed,
                FieldOutcome::Value { s: key, next } => match parse_string(bytes, next) {
                    FieldOutcome::Incomplete => ParseOutcome::Incomplete,
                    FieldOutcome::Malformed => ParseOutcome::Malformed,
                    FieldOutcome::Value { s: value, next: end } => ParseOutcome::Parsed {
                        entry: EntryModel::Put { key, value },
                        next: end,
                    },
                },
            }
        } else if tag == TAG_REMOVE {
            match parse_string(bytes, pos + 1) {
                FieldOutcome::Incomplete => ParseOutcome::Incomplete,
                FieldOutcome::Malformed => ParseOutcome::Malformed,
                FieldOutcome::Value { s: key, next } => ParseOutcome::Parsed {
                    entry: EntryModel::Remove { key },
                    next,
                },
            }
        } else {
            ParseOutcome::Malformed
        }
    }
}

/// A parsed record covers at least its tag and one length prefix, and ends
/// within the log.
pub proof fn lemma_parse_record_bounds(bytes: Seq<u8>, pos: int)
    requires
        0 <= pos <= bytes.len(),
        parse_record(bytes, pos) matches ParseOutcome::Parsed { .. },
    ensures
        (parse_record(bytes, pos) matches ParseOutcome::Parsed { next, .. }
            && pos + 9 <= next <= bytes.len()),
{
}

/// Extending a log to the right does not change a record already parsed
/// from it.
pub proof fn lemma_parse_record_prefix(b1: Seq<u8>, b2: Seq<u8>, pos: int)
    requires
        0 <= pos <= b1.len(),
        b1.len() <= b2.len(),
        b2.subrange(0, b1.len() as int) == b1,
        parse_record(b1, pos) matches ParseOutcome::Parsed { .. },
    ensures
        parse_record(b2, pos) == parse_record(b1, pos),
{
    assert forall|i: int| 0 <= i < b1.len() implies b2[i] == b1[i] by {
        assert(b2.subrange(0, b1.len() as int)[i] == b2[i]);
    }
    lemma_parse_record_bounds(b1, pos);
    let tag = b1[pos];
    if tag == TAG_PUT || tag == TAG_REMOVE {
        lemma_parse_string_prefix(b1, b2, pos + 1);
        if tag == TAG_PUT {
            if let FieldOutcome::Value { next, .. } = parse_string(b1, pos + 1) {
                lemma_parse_string_prefix(b1, b2, next);
            }
        }
    }
}

/// Extending a log to the right does not change a string field already
/// parsed from it.
proof fn lemma_parse_string_prefix(b1: Seq<u8>, b2: Seq<u8>, pos: int)
    requires
        0 <= pos,
        b1.len() <= b2.len(),
        forall|i: int| 0 <= i < b1.len() ==> b2[i] == b1[i],
        parse_string(b1, pos) matches FieldOutcome::Value { .. },
    ensures
        parse_string(b2, pos) == parse_string(b1, pos),
{
    assert(pos + 8 <= b1.len());
    assert(parse_len_at(b2, pos) == parse_len_at(b1, pos));
    let n = parse_len_at(b1, pos) as int;
    assert(b2.subrange(pos + 8, pos + 8 + n) =~= b1.subrange(pos + 8, pos + 8 + n));
}

/// Cutting a log after a parsed record does not change that record.
pub proof fn lemma_parse_record_take(bytes: Seq<u8>, n: int, pos: int)
    requires
        0 <= pos <= n <= bytes.len(),
        parse_record(bytes, pos) matches ParseOutcome::Parsed { next, .. } && next <= n,
    ensures
        parse_record(bytes.subrange(0, n), pos) == parse_record(bytes, pos),
{
    let t = bytes.subrange(0, n);
    lemma_parse_record_bounds(bytes, pos);
    let tag = bytes[pos];
    assert(t[pos] == tag);
    if tag == TAG_PUT {
        if let FieldOutcome::Value { next: mid, .. } = parse_string(bytes, pos + 1) {
            if let FieldOutcome::Value { next: end, .. } = parse_string(bytes, mid) {
                assert(mid + 8 <= end);
                lemma_parse_string_take(bytes, n, pos + 1);
                lemma_parse_string_take(bytes, n, mid);
            }
        }
    } else if tag == TAG_REMOVE {
        lemma_parse_string_take(bytes, n, pos + 1);
    }
}

/// Cutting a log after a parsed string field does not change that field.
proof fn lemma_parse_string_take(bytes: Seq<u8>, n: int, pos: int)
    requires
        0 <= pos,
        n <= bytes.len(),
        parse_string(bytes, pos) matches FieldOutcome::Value { next, .. } && next <= n,
    ensures
        parse_string(bytes.subrange(0, n), pos) == parse_string(bytes, pos),
{
    let t = bytes.subrange(0, n);
    assert(pos + 8 <= n);
    assert(parse_len_at(t, pos) == parse_len_at(bytes, pos));
    let m = parse_len_at(bytes, pos) as int;
    assert(t.subrange(pos + 8, pos + 8 + m) =~= bytes.subrange(pos + 8, pos + 8 + m));
}

/// Cutting a log in the middle of a parsed record leaves a torn tail,
/// never a malformed one: the truncated log parses to `Incomplete` there
/// (or to `EndOfInput` when the cut is exactly at the record's start).
pub proof fn lemma_parse_record_crosscut(bytes: Seq<u8>, n: int, pos: int)
    requires
        0 <= pos <= n <= bytes.len(),
        parse_record(bytes, pos) matches ParseOutcome::Parsed { next, .. } && next > n,
    ensures
        parse_record(bytes.subrange(0, n), pos) is Incomplete || parse_record(
            bytes.subrange(0, n),
            pos,
        ) is EndOfInput,
{
    let t = bytes.subrange(0, n);
    if pos == n {
        assert(parse_record(t, pos) == ParseOutcome::EndOfInput);
    } else {
        let tag = bytes[pos];
        assert(t[pos] == tag);
        if tag == TAG_PUT {
            if let FieldOutcome::Value { next: mid, .. } = parse_string(bytes, pos + 1) {
                if mid > n {
                    lemma_parse_string_crosscut(bytes, n, pos + 1);
                } else {
                    lemma_parse_string_take(bytes, n, pos + 1);
                    lemma_parse_string_crosscut(bytes, n, mid);
                }
            }
        } else {
            lemma_parse_string_crosscut(bytes, n, pos + 1);
        }
    }
}

/// Cutting a log in the middle of a parsed string field makes the field
/// incomplete.
proof fn lemma_parse_string_crosscut(bytes: Seq<u8>, n: int, pos: int)
    requires
        0 <= pos <= n <= bytes.len(),
        parse_string(bytes, pos) matches FieldOutcome::Value { next, .. } && next > n,
    ensures
        parse_string(bytes.subrange(0, n), pos) is Incomplete,
{
    let t = bytes.subrange(0, n);
    if pos + 8 <= n {
        assert(parse_len_at(t, pos) == parse_len_at(bytes, pos));
    }
}

/// Shortening a log cannot complete an incomplete record: it stays
/// incomplete (or the cut lands exactly at its start).
pub proof fn lemma_parse_record_shrink(bytes: Seq<u8>, n: int, pos: int)
    requires
        0 <= pos <= n <= bytes.len(),
        parse_record(bytes, pos) is Incomplete,
    ensures
        parse_record(bytes.subrange(0, n), pos) is Incomplete || parse_record(
            bytes.subrange(0, n),
            pos,
        ) is EndOfInput,
{
    let t = bytes.subrange(0, n);
    if pos == n {
        assert(parse_record(t, pos) == ParseOutcome::EndOfInput);
    } else {
        let tag = bytes[pos];
        assert(t[pos] == tag);
        if tag == TAG_PUT {
            match parse_string(bytes, pos + 1) {
                FieldOutcome::Incomplete => {
                    lemma_parse_string_shrink(bytes, n, pos + 1);
                },
                FieldOutcome::Malformed => {},
                FieldOutcome::Value { next: mid, .. } => {
                    if mid > n {
                        lemma_parse_string_crosscut(bytes, n, pos + 1);
                    } else {
                        lemma_parse_string_take(bytes, n, pos + 1);
                        lemma_parse_string_shrink(bytes, n, mid);
                    }
                },
            }
        } else if tag == TAG_REMOVE {
            lemma_parse_string_shrink(bytes, n, pos + 1);
        }
    }
}

/// Shortening a log cannot complete an incomplete string field.
proof fn lemma_parse_string_shrink(bytes: Seq<u8>, n: int, pos: int)
    requires
        0 <= pos <= n <= bytes.len(),
        parse_string(bytes, pos) is Incomplete,
    ensures
        parse_string(bytes.subrange(0, n), pos) is Incomplete,
{
    let t = bytes.subrange(0, n);
    if pos + 8 <= n {
        assert(parse_len_at(t, pos) == parse_len_at(bytes, pos));
    }
}

/// Parsing at the start of an encoded record yields that record and stops
/// just past it, whatever follows.
pub proof fn lemma_parse_encoded(bytes: Seq<u8>, pos: int, e: EntryModel)
    requires
        entry_fits(e),
        0 <= pos,
        pos + encode_entry(e).len() <= bytes.len(),
        bytes.subrange(pos, pos + encode_entry(e).len() as int) == encode_entry(e),
    ensures
        parse_record(bytes, pos) == (ParseOutcome::Parsed {
            entry: e,
            next: pos + encode_entry(e).len(),
        }),
{
    broadcast use vstd::utf8::encode_utf8_valid_utf8, vstd::utf8::encode_utf8_decode_utf8;

    let enc = encode_entry(e);
    assert forall|i: int| 0 <= i < enc.len() implies bytes[pos + i] == enc[i] by {
        assert(bytes.subrange(pos, pos + enc.len() as int)[i] == bytes[pos + i]);
    }
    match e {
        EntryModel::Put { key, value } => {
            let ek = encode_string(key);
            let ev = encode_string(value);
            assert(enc == seq![TAG_PUT] + ek + ev);
            assert(bytes[pos + 0] == enc[0] && enc[0] == TAG_PUT);
            assert(bytes[pos] == TAG_PUT);
            assert forall|i: int| 0 <= i < ek.len() implies bytes[pos + 1 + i] == ek[i] by {
                assert((seq![TAG_PUT] + ek)[1 + i] == ek[i]);
                assert(enc[1 + i] == (seq![TAG_PUT] + ek)[1 + i]);
                assert(bytes[pos + (1 + i)] == enc[1 + i]);
            }
            lemma_parse_encoded_string(bytes, pos + 1, key);
            let mid = pos + 1 + ek.len();
            assert forall|i: int| 0 <= i < ev.len() implies bytes[mid + i] == ev[i] by {
                assert(enc[1 + ek.len() + i] == ev[i]);
                assert(bytes[pos + (1 + ek.len() + i)] == enc[1 + ek.len() + i]);
            }
            lemma_parse_encoded_string(bytes, mid, value);
        },
        EntryModel::Remove { key } => {
            let ek = encode_string(key);
            assert(enc == seq![TAG_REMOVE] + ek);
            assert(bytes[pos + 0] == enc[0] && enc[0] == TAG_REMOVE);
            assert(bytes[pos] == TAG_REMOVE);
            assert forall|i: int| 0 <= i < ek.len() implies bytes[pos + 1 + i] == ek[i] by {
                assert(enc[1 + i] == ek[i]);
                assert(bytes[pos + (1 + i)] == enc[1 + i]);
            }
            lemma_parse_encoded_string(bytes, pos + 1, key);
        },
    }
}

/// Parsing at the start of an encoded string field yields that field.
proof fn lemma_parse_encoded_string(bytes: Seq<u8>, pos: int, s: Seq<char>)
    requires
        encode_utf8(s).len() <= u64::MAX,
        0 <= pos,
        pos + encode_string(s).len() <= bytes.len(),
        forall|i: int| 0 <= i < encode_string(s).len() ==> bytes[pos + i] == encode_string(s)[i],
    ensures
        parse_string(bytes, pos) == (FieldOutcome::Value {
            s,
            next: pos + encode_string(s).len(),
        }),
{
    broadcast use vstd::utf8::encode_utf8_valid_utf8, vstd::utf8::encode_utf8_decode_utf8;

    let payload = encode_utf8(s);
    let n = payload.len() as u64;
    assert forall|i: int| 0 <= i < 8 implies bytes[pos + i] == u64_le_bytes(n)[i] by {
        assert(encode_string(s)[i] == u64_le_bytes(n)[i]);
    }
    lemma_u64_le_round_trip(n);
    assert(parse_len_at(bytes, pos) == n);
    assert(bytes.subrange(pos + 8, pos + 8 + n as int) =~= payload) by {
        assert forall|i: int| 0 <= i < payload.len() implies bytes[pos + 8 + i] == payload[i] by {
            assert(encode_string(s)[8 + i] == payload[i]);
        }
    }
    assert(decode_utf8(payload) == s);
}

/// Outcome of decoding one record from the byte log.
pub enum DecodeOutcome {
    /// The position is exactly the end of the log.
    EndOfInput,
    /// The record runs past the end of the log (a torn tail).
    Incomplete,
    /// The bytes at the position cannot begin any record.
    Malformed,
    /// One record, and the position just past it.
    Decoded { entry: LogEntry, next: usize },
}

impl View for DecodeOutcome {
    type V = ParseOutcome;

    open spec fn view(&self) -> ParseOutcome {
        match self {
            DecodeOutcome::EndOfInput => ParseOutcome::EndOfInput,
            DecodeOutcome::Incomplete => ParseOutcome::Incomplete,
            DecodeOutcome::Malformed => ParseOutcome::Malformed,
            DecodeOutcome::Decoded { entry, next } => ParseOutcome::Parsed {
                entry: entry@,
                next: *next as int,
            },
        }
    }
}

/// Outcome of decoding one string field.
pub enum FieldDecode {
    Incomplete,
    Malformed,
    Value { s: String, next: usize },
}

impl View for FieldDecode {
    type V = FieldOutcome;

    open spec fn view(&self) -> FieldOutcome {
        match self {
            FieldDecode::Incomplete => FieldOutcome::Incomplete,
            FieldDecode::Malformed => FieldOutcome::Malformed,
            FieldDecode::Value { s, next } => FieldOutcome::Value { s: s@, next: *next as int },
        }
    }
}

/// Relies on `String::from_utf8`: it returns `Ok` exactly on valid UTF-8
/// input, and then decodes the bytes to their character sequence.
#[verifier::external_body]
fn string_from_utf8(bytes: Vec<u8>) -> (r: Option<String>)
    ensures
        r is Some <==> valid_utf8(bytes@),
        r matches Some(s) ==> s@ == decode_utf8(bytes@),
{
    String::from_utf8(bytes).ok()
}

/// Copies `log[start..end]` into a fresh vector.
fn copy_range(log: &Vec<u8>, start: usize, end: usize) -> (r: Vec<u8>)
    requires
        start <= end <= log@.len(),
    ensures
        r@ == log@.subrange(start as int, end as int),
{
    let mut r: Vec<u8> = Vec::new();
    let mut i: usize = start;
    while i < end
        invariant
            start <= i <= end <= log@.len(),
            r@ == log@.subrange(start as int, i as int),
        decreases end - i,
    {
        r.push(log[i]);
        assert(r@ =~= log@.subrange(start as int, i + 1 as int));
        i = i + 1;
    }
    r
}

/// Reads the `u64` stored little-endian at `pos`.
fn read_u64_le(log: &Vec<u8>, pos: usize) -> (r: u64)
    requires
        pos + 8 <= log@.len(),
    ensures
        r == parse_len_at(log@, pos as int),
{
    let l = log.len();
    assert(pos + 8 <= l);
    (log[pos] as u64) | ((log[pos + 1] as u64) << 8u64) | ((log[pos + 2] as u64) << 16u64)
        | ((log[pos + 3] as u64) << 24u64) | ((log[pos + 4] as u64) << 32u64)
        | ((log[pos + 5] as u64) << 40u64) | ((log[pos + 6] as u64) << 48u64)
        | ((log[pos + 7] as u64) << 56u64)
}

/// Decodes one length-prefixed UTF-8 string field at `pos`.
fn read_string(log: &Vec<u8>, pos: usize) -> (r: FieldDecode)
    requires
        pos <= log@.len(),
    ensures
        r@ == parse_string(log@, pos as int),
{
    if log.len() - pos < 8 {
        return FieldDecode::Incomplete;
    }
    let n = read_u64_le(log, pos);
    let room: usize = log.len() - pos - 8;
    if n > room as u64 {
        return FieldDecode::Incomplete;
    }
    let n_us = n as usize;
    let payload = copy_range(log, pos + 8, pos + 8 + n_us);
    match string_from_utf8(payload) {
        None => FieldDecode::Malformed,
        Some(s) => FieldDecode::Value { s, next: pos + 8 + n_us },
    }
}

/// Decodes one record at `pos`, or reports why none could be decoded.
pub fn decode_record(log: &Vec<u8>, pos: usize) -> (r: DecodeOutcome)
    requires
        pos <= log@.len(),
    ensures
        r@ == parse_record(log@, pos as int),
{
    if pos == log.len() {
        return DecodeOutcome::EndOfInput;
    }
    let tag = log[pos];
    if tag == TAG_PUT {
        match read_string(log, pos + 1) {
            FieldDecode::Incomplete => DecodeOutcome::Incomplete,
            FieldDecode::Malformed => DecodeOutcome::Malformed,
            FieldDecode::Value { s: key, next } => match read_string(log, next) {
                FieldDecode::Incomplete => DecodeOutcome::Incomplete,
                FieldDecode::Malformed => DecodeOutcome::Malformed,
                FieldDecode::Value { s: value, next: end } => DecodeOutcome::Decoded {
                    entry: LogEntry::Put { key, value },
                    next: end,
                },
            },
        }
    } else if tag == TAG_REMOVE {
        match read_string(log, pos + 1) {
            FieldDecode::Incomplete => DecodeOutcome::Incomplete,
            FieldDecode::Malformed => DecodeOutcome::Malformed,
            FieldDecode::Value { s: key, next } => DecodeOutcome::Decoded {
                entry: LogEntry::Remove { key },
                next,
            },
        }
    } else {
        DecodeOutcome::Malformed
    }
}

/// Appends one length-prefixed UTF-8 string field to `out`.
fn append_string(out: &mut Vec<u8>, s: &String)
    ensures
        final(out)@ == old(out)@ + encode_string(s@),
        encode_utf8(s@).len() <= u64::MAX,
{
    let mut payload = s.as_str().as_bytes_vec();
    let n = payload.len() as u64;
    push_u64_le(out, n);
    out.append(&mut payload);
    assert(final(out)@ =~= old(out)@ + encode_string(s@));
}

/// Appends the encoding of one record to `out`.
pub fn append_entry(out: &mut Vec<u8>, e: &LogEntry)
    ensures
        final(out)@ == old(out)@ + encode_entry(e@),
        entry_fits(e@),
{
    match e {
        LogEntry::Put { key, value } => {
            out.push(TAG_PUT);
            append_string(out, key);
            append_string(out, value);
        },
        LogEntry::Remove { key } => {
            out.push(TAG_REMOVE);
            append_string(out, key);
        },
    }
    assert(final(out)@ =~= old(out)@ + encode_entry(e@));
}

} // verus!
