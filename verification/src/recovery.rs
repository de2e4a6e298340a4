//! The recovery model: what a byte log means.
//!
//! A log is replayed from offset 0.  Each parsed record updates a map from
//! key to the offset and value of that key's latest `Put` record, and a
//! counter of superseded records.  Replay stops cleanly at the end of the
//! log or at a torn tail (an incomplete final record), and reports
//! corruption when a record is present but malformed.
//!
//! Everything the engine promises is stated against this model: the
//! in-memory index always equals the replay of the engine's log bytes, so
//! reopening a store from its log restores the same state.

use vstd::prelude::*;
use crate::codec::{
    EntryModel, ParseOutcome, parse_record, encode_entry, entry_fits,
    lemma_parse_record_bounds, lemma_parse_record_prefix, lemma_parse_encoded,
};

verus! {

/// What replay remembers about one live key: the offset of its latest
/// `Put` record, and the value that record carries.
pub struct LiveEntry {
    /// Byte offset of the record in the log.
    pub off: int,
    /// The value the record binds the key to.
    pub value: Seq<char>,
}

/// The index replay builds: live keys only.
pub type LiveIndex = Map<Seq<char>, LiveEntry>;

/// The index after applying one record found at offset `off`.
pub open spec fn step_index(m: LiveIndex, e: EntryModel, off: int) -> LiveIndex {
    match e {
        EntryModel::Put { key, value } => m.insert(key, LiveEntry { off, value }),
        EntryModel::Remove { key } => m.remove(key),
    }
}

/// The modification counter after applying one record: a `Put` of a live
/// key and a `Remove` of a live key each supersede a record; anything else
/// leaves the counter alone.
pub open spec fn step_mods(m: LiveIndex, e: EntryModel, mods: nat) -> nat {
    match e {
        EntryModel::Put { key, .. } => if m.contains_key(key) {
            mods + 1
        } else {
            mods
        },
        EntryModel::Remove { key } => if m.contains_key(key) {
            mods + 1
        } else {
            mods
        },
    }
}

/// The result of replaying a log.
pub enum ReplayResult {
    /// A record was present but malformed; `entry_number` counts the
    /// records replayed before it.
    Corrupt { entry_number: nat },
    /// The live index, the modification counter, the position where replay
    /// stopped (the end of the last complete record), and the number of
    /// records replayed.
    Recovered { index: LiveIndex, mods: nat, end: int, count: nat },
}

/// Replays `bytes` from `pos`, starting from index `m`, modification
/// counter `mods`, and record count `count`.
pub open spec fn replay_from(
    bytes: Seq<u8>,
    pos: int,
    m: LiveIndex,
    mods: nat,
    count: nat,
) -> ReplayResult
    decreases bytes.len() - pos,
{
    match parse_record(bytes, pos) {
        ParseOutcome::EndOfInput => ReplayResult::Recovered { index: m, mods, end: pos, count },
        ParseOutcome::Incomplete => ReplayResult::Recovered { index: m, mods, end: pos, count },
        ParseOutcome::Malformed => ReplayResult::Corrupt { entry_number: count },
        ParseOutcome::Parsed { entry, next } => if pos < next <= bytes.len() {
            replay_from(
                bytes,
                next,
                step_index(m, entry, pos),
                step_mods(m, entry, mods),
                count + 1,
            )
        } else {
            // A parsed record always ends after its start and within the log
            // (`lemma_parse_record_bounds`); this branch only discharges the
            // termination measure.
            ReplayResult::Corrupt { entry_number: count }
        },
    }
}

/// Replay of a whole log.
pub open spec fn replay(bytes: Seq<u8>) -> ReplayResult {
    replay_from(bytes, 0, Map::empty(), 0, 0)
}

/// Every offset the index quotes points at a complete `Put` record for
/// that key, holding that key's current value.
pub open spec fn index_wf(bytes: Seq<u8>, m: LiveIndex) -> bool {
    forall|k: Seq<char>| #[trigger] m.contains_key(k) ==> {
        &&& 0 <= m[k].off
        &&& parse_record(bytes, m[k].off) matches ParseOutcome::Parsed {
            entry: EntryModel::Put { key, value },
            ..
        } && key == k && value == m[k].value
    }
}

/// Replay only ever quotes offsets of `Put` records it parsed itself, so
/// the index it returns satisfies [`index_wf`].
pub proof fn lemma_replay_from_index_wf(
    bytes: Seq<u8>,
    pos: int,
    m: LiveIndex,
    mods: nat,
    count: nat,
)
    requires
        0 <= pos <= bytes.len(),
        index_wf(bytes, m),
    ensures
        replay_from(bytes, pos, m, mods, count) matches ReplayResult::Recovered { index, .. }
            ==> index_wf(bytes, index),
    decreases bytes.len() - pos,
{
    match parse_record(bytes, pos) {
        ParseOutcome::Parsed { entry, next } => {
            lemma_parse_record_bounds(bytes, pos);
            let m2 = step_index(m, entry, pos);
            assert(index_wf(bytes, m2));
            lemma_replay_from_index_wf(bytes, next, m2, step_mods(m, entry, mods), count + 1);
        },
        _ => {},
    }
}

/// Replay stops no earlier than where it starts, and within the log.
pub proof fn lemma_replay_from_end(bytes: Seq<u8>, pos: int, m: LiveIndex, mods: nat, count: nat)
    requires
        0 <= pos <= bytes.len(),
    ensures
        replay_from(bytes, pos, m, mods, count) matches ReplayResult::Recovered { end, .. }
            ==> pos <= end <= bytes.len(),
    decreases bytes.len() - pos,
{
    match parse_record(bytes, pos) {
        ParseOutcome::Parsed { entry, next } => {
            lemma_parse_record_bounds(bytes, pos);
            lemma_replay_from_end(
                bytes,
                next,
                step_index(m, entry, pos),
                step_mods(m, entry, mods),
                count + 1,
            );
        },
        _ => {},
    }
}

/// Appending one encoded record to a fully replayed log replays to the old
/// index and counter stepped by that one record, found at the old end of
/// the log.
pub proof fn lemma_replay_append(
    bytes: Seq<u8>,
    pos: int,
    m: LiveIndex,
    mods: nat,
    count: nat,
    e: EntryModel,
)
    requires
        0 <= pos <= bytes.len(),
        entry_fits(e),
        (replay_from(bytes, pos, m, mods, count) matches ReplayResult::Recovered { end, .. }
            && end == bytes.len()),
    ensures
        ({
            let grown = bytes + encode_entry(e);
            let r = replay_from(bytes, pos, m, mods, count);
            match r {
                ReplayResult::Recovered { index, mods: w, end, count: c } => replay_from(
                    grown,
                    pos,
                    m,
                    mods,
                    count,
                ) == (ReplayResult::Recovered {
                    index: step_index(index, e, bytes.len() as int),
                    mods: step_mods(index, e, w),
                    end: grown.len() as int,
                    count: (c + 1) as nat,
                }),
                ReplayResult::Corrupt { .. } => false,
            }
        }),
    decreases bytes.len() - pos,
{
    let grown = bytes + encode_entry(e);
    assert(grown.subrange(0, bytes.len() as int) =~= bytes);
    match parse_record(bytes, pos) {
        ParseOutcome::EndOfInput => {
            assert(pos == bytes.len());
            let enc = encode_entry(e);
            assert(grown.subrange(pos, pos + enc.len() as int) =~= enc);
            lemma_parse_encoded(grown, pos, e);
            let m2 = step_index(m, e, pos);
            let w2 = step_mods(m, e, mods);
            assert(parse_record(grown, pos + enc.len() as int) == ParseOutcome::EndOfInput);
            assert(replay_from(grown, pos + enc.len() as int, m2, w2, count + 1)
                == (ReplayResult::Recovered {
                    index: m2,
                    mods: w2,
                    end: grown.len() as int,
                    count: (count + 1) as nat,
                }));
            assert(replay_from(grown, pos, m, mods, count) == (ReplayResult::Recovered {
                index: m2,
                mods: w2,
                end: grown.len() as int,
                count: (count + 1) as nat,
            }));
        },
        ParseOutcome::Incomplete => {
            // replay stopped here, so `end == pos == bytes.len()`, but an
            // incomplete record needs at least one byte past `pos`.
            assert(false);
        },
        ParseOutcome::Malformed => {
            assert(false);
        },
        ParseOutcome::Parsed { entry, next } => {
            lemma_parse_record_bounds(bytes, pos);
            lemma_parse_record_prefix(bytes, grown, pos);
            lemma_replay_append(
                bytes,
                next,
                step_index(m, entry, pos),
                step_mods(m, entry, mods),
                count + 1,
                e,
            );
        },
    }
}

/// Cutting a log exactly where its replay stopped does not change the
/// replay: the torn tail past that point carries no recovered state.
pub proof fn lemma_replay_take_end(bytes: Seq<u8>, pos: int, m: LiveIndex, mods: nat, count: nat)
    requires
        0 <= pos <= bytes.len(),
        replay_from(bytes, pos, m, mods, count) matches ReplayResult::Recovered { .. },
    ensures
        ({
            let r = replay_from(bytes, pos, m, mods, count);
            match r {
                ReplayResult::Recovered { end, .. } => replay_from(
                    bytes.subrange(0, end),
                    pos,
                    m,
                    mods,
                    count,
                ) == r,
                ReplayResult::Corrupt { .. } => false,
            }
        }),
    decreases bytes.len() - pos,
{
    lemma_replay_from_end(bytes, pos, m, mods, count);
    match parse_record(bytes, pos) {
        ParseOutcome::EndOfInput => {
            let t = bytes.subrange(0, pos);
            assert(parse_record(t, pos) == ParseOutcome::EndOfInput);
        },
        ParseOutcome::Incomplete => {
            let t = bytes.subrange(0, pos);
            assert(parse_record(t, pos) == ParseOutcome::EndOfInput);
        },
        ParseOutcome::Malformed => {},
        ParseOutcome::Parsed { entry, next } => {
            lemma_parse_record_bounds(bytes, pos);
            let m2 = step_index(m, entry, pos);
            let w2 = step_mods(m, entry, mods);
            lemma_replay_from_end(bytes, next, m2, w2, count + 1);
            lemma_replay_take_end(bytes, next, m2, w2, count + 1);
            if let ReplayResult::Recovered { end, .. } = replay_from(bytes, pos, m, mods, count) {
                crate::codec::lemma_parse_record_take(bytes, end, pos);
            }
        },
    }
}

/// Partial-tail tolerance: a log whose replay recovers (with no malformed
/// record) still recovers after truncation at any byte position.  The
/// truncated log replays its complete records and stops at the cut, so a
/// store opened from it reflects the state of the longest
/// completely-decodable prefix — which is what replay computes.
pub proof fn lemma_replay_truncated(bytes: Seq<u8>, n: int)
    requires
        0 <= n <= bytes.len(),
        replay(bytes) matches ReplayResult::Recovered { .. },
    ensures
        replay(bytes.subrange(0, n)) matches ReplayResult::Recovered { .. },
{
    lemma_replay_from_truncated(bytes, n, 0, Map::empty(), 0, 0);
}

/// The inductive core of [`lemma_replay_truncated`].
proof fn lemma_replay_from_truncated(
    bytes: Seq<u8>,
    n: int,
    pos: int,
    m: LiveIndex,
    mods: nat,
    count: nat,
)
    requires
        0 <= pos <= n <= bytes.len(),
        replay_from(bytes, pos, m, mods, count) matches ReplayResult::Recovered { .. },
    ensures
        replay_from(bytes.subrange(0, n), pos, m, mods, count)
            matches ReplayResult::Recovered { .. },
    decreases bytes.len() - pos,
{
    let t = bytes.subrange(0, n);
    match parse_record(bytes, pos) {
        ParseOutcome::EndOfInput => {
            assert(pos == n);
            assert(parse_record(t, pos) == ParseOutcome::EndOfInput);
        },
        ParseOutcome::Incomplete => {
            crate::codec::lemma_parse_record_shrink(bytes, n, pos);
        },
        ParseOutcome::Malformed => {},
        ParseOutcome::Parsed { entry, next } => {
            lemma_parse_record_bounds(bytes, pos);
            if next <= n {
                crate::codec::lemma_parse_record_take(bytes, n, pos);
                lemma_replay_from_truncated(
                    bytes,
                    n,
                    next,
                    step_index(m, entry, pos),
                    step_mods(m, entry, mods),
                    count + 1,
                );
            } else {
                crate::codec::lemma_parse_record_crosscut(bytes, n, pos);
            }
        },
    }
}

/// The value part of a live index: the abstract key-value state.
pub open spec fn state_of(m: LiveIndex) -> Map<Seq<char>, Seq<char>> {
    m.map_values(|e: LiveEntry| e.value)
}

/// The log a compaction writes: one `Put` record per key, in the order
/// given by `keys`, each carrying that key's value in `state`.
pub open spec fn puts_log(keys: Seq<Seq<char>>, state: Map<Seq<char>, Seq<char>>) -> Seq<u8>
    decreases keys.len(),
{
    if keys.len() == 0 {
        Seq::empty()
    } else {
        puts_log(keys.drop_last(), state) + encode_entry(
            EntryModel::Put { key: keys.last(), value: state[keys.last()] },
        )
    }
}

/// A log in compacted form: exactly one `Put` record per live key of
/// `state`, each holding that key's value, and nothing else.
pub open spec fn compacted_form(log: Seq<u8>, state: Map<Seq<char>, Seq<char>>) -> bool {
    exists|keys: Seq<Seq<char>>|
        {
            &&& keys.no_duplicates()
            &&& keys.to_set() == state.dom()
            &&& log == puts_log(keys, state)
        }
}

/// Every key and value of `state` fits the codec's length prefixes.  Any
/// state assembled from executable strings satisfies this.
pub open spec fn state_fits(state: Map<Seq<char>, Seq<char>>) -> bool {
    forall|k: Seq<char>| #[trigger] state.contains_key(k) ==> entry_fits(
        EntryModel::Put { key: k, value: state[k] },
    )
}

/// Replaying a log of one `Put` per distinct key recovers exactly those
/// keys with those values, supersedes nothing, and counts one record per
/// key.
pub proof fn lemma_replay_puts(keys: Seq<Seq<char>>, state: Map<Seq<char>, Seq<char>>)
    requires
        keys.no_duplicates(),
        forall|i: int| 0 <= i < keys.len() ==> state.contains_key(#[trigger] keys[i]),
        state_fits(state),
    ensures
        ({
            let log = puts_log(keys, state);
            &&& replay(log) matches ReplayResult::Recovered { index, mods, end, count } && {
                &&& index.dom() == keys.to_set()
                &&& forall|k: Seq<char>| #[trigger] index.contains_key(k) ==> index[k].value
                    == state[k]
                &&& mods == 0
                &&& end == log.len()
                &&& count == keys.len()
            }
        }),
    decreases keys.len(),
{
    let log = puts_log(keys, state);
    if keys.len() == 0 {
        assert(log =~= Seq::<u8>::empty());
        assert(replay(log) == (ReplayResult::Recovered {
            index: Map::<Seq<char>, LiveEntry>::empty(),
            mods: 0nat,
            end: 0int,
            count: 0nat,
        }));
        assert(Map::<Seq<char>, LiveEntry>::empty().dom() =~= keys.to_set());
    } else {
        let head = keys.drop_last();
        let k = keys.last();
        let e = EntryModel::Put { key: k, value: state[k] };
        assert(state.contains_key(k));
        lemma_replay_puts(head, state);
        let prior = puts_log(head, state);
        lemma_replay_append(prior, 0, Map::empty(), 0, 0, e);
        if let ReplayResult::Recovered { index, .. } = replay(prior) {
            assert(!head.contains(k)) by {
                if head.contains(k) {
                    let i = choose|i: int| 0 <= i < head.len() && head[i] == k;
                    assert(keys[i] == k && keys[keys.len() - 1] == k);
                }
            }
            assert(!index.contains_key(k));
            if let ReplayResult::Recovered { index: index2, .. } = replay(log) {
                assert(index2.dom() =~= keys.to_set()) by {
                    assert(keys =~= head.push(k));
                    assert(keys.to_set() =~= head.to_set().insert(k));
                }
            }
        }
    }
}

} // verus!
