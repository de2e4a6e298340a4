//! The storage engine.
//!
//! A [`KvStore`] owns the byte image of its append-only log and the
//! in-memory index from live key to record offset.  Its invariant ties the
//! two together through the recovery model: replaying the log bytes yields
//! exactly the index and modification counter the engine holds, so the
//! abstract state of the store is a pure function of its log bytes, and
//! reopening a store from those bytes restores the same state.
//!
//! Durability is the caller's half: the caller reads the log file into
//! bytes before [`KvStore::open`] and writes [`KvStore::log_bytes`] back
//! to the file after each mutation (appending when no compaction ran,
//! replacing the file through a temporary when one did).

use vstd::prelude::*;
use crate::codec::{
    LogEntry, EntryModel, ParseOutcome, DecodeOutcome, parse_record, encode_entry, entry_fits,
    decode_record, append_entry, lemma_parse_record_bounds,
};
use crate::index::Index;
use crate::recovery::{
    LiveEntry, LiveIndex, ReplayResult, replay, replay_from, step_index, step_mods, state_of,
    index_wf, compacted_form, puts_log, state_fits, lemma_replay_append, lemma_replay_from_index_wf,
    lemma_replay_puts,
    lemma_replay_take_end,
};

verus! {

/// After this many superseded records the engine compacts the log.
pub const COMPACT_MODIFICATION_CT: u64 = 20;

/// Why an engine operation failed.
///
/// `cause` fields carry the text of an underlying failure.  The engine
/// itself raises only `LogParse` (a malformed record found while opening)
/// and `RemoveNonexistentKey`; the remaining kinds describe failures of
/// the surrounding storage plumbing, which constructs them from real I/O
/// errors, and corruption cases that a well-formed store never reaches.
#[derive(Debug)]
pub enum KvsError {
    /// Opening or creating the log file failed.
    OpenLog { filename: String, cause: String },
    /// A record could not be decoded while opening; `entry_number` counts
    /// the records decoded before it.
    LogParse { entry_number: usize },
    /// Appending a `Put` record failed.
    LogAppendSet { key: String, value: String, cause: String },
    /// Appending a `Remove` record failed.
    LogAppendRemove { key: String, cause: String },
    /// A key was removed that is not live.
    RemoveNonexistentKey { key: String },
    /// Forcing appended records to stable storage failed.
    LogSync { key: String, cause: String },
    /// Finding the current end of the log failed.
    GetPosition { filename: String, cause: String },
    /// The record an index offset points at could not be decoded.
    LogLookup { key: String, offs: u64, cause: String },
    /// The record an index offset points at is not a `Put`.
    LogEntryKindInvalid { key: String, offs: u64, found_key: String },
    /// The record an index offset points at is a `Put` for another key.
    LogEntryKeyMismatch { key: String, found_key: String, offs: u64 },
    /// Flushing the rewritten log failed.
    CompactionFlushFailed { cause: String },
    /// Syncing the rewritten log failed.
    CompactionSyncFailed { cause: String },
    /// Replacing the old log with the rewritten one failed.
    CompactionRenameFailed { cause: String },
}

/// A compaction counter one higher, saturating at the top of `u64`.
pub open spec fn bumped(c: u64) -> u64 {
    if c < u64::MAX {
        (c + 1) as u64
    } else {
        c
    }
}

/// The key-value store: an append-only log image and the index over it.
pub struct KvStore {
    log: Vec<u8>,
    index: Index,
    modification_ct: u64,
    compaction_ct: u64,
}

impl View for KvStore {
    type V = Map<Seq<char>, Seq<char>>;

    /// The abstract state: each live key bound to its current value, as
    /// the log bytes replay it.
    closed spec fn view(&self) -> Map<Seq<char>, Seq<char>> {
        match replay(self.log@) {
            ReplayResult::Recovered { index, .. } => state_of(index),
            ReplayResult::Corrupt { .. } => Map::empty(),
        }
    }
}

impl KvStore {
    /// The bytes of the log.
    pub closed spec fn log_view(&self) -> Seq<u8> {
        self.log@
    }

    /// The count of superseded records since the last compaction.
    pub closed spec fn mod_count(&self) -> u64 {
        self.modification_ct
    }

    /// How many compactions have run, saturating at the top of `u64`.
    pub closed spec fn compaction_count(&self) -> u64 {
        self.compaction_ct
    }

    /// The index and counter are exactly what replaying the log yields.
    closed spec fn corresponds(&self) -> bool {
        replay(self.log@) matches ReplayResult::Recovered { index: m, mods, end, .. } && {
            &&& end == self.log@.len()
            &&& mods == self.modification_ct as nat
            &&& self.index@.dom() == m.dom()
            &&& forall|k: Seq<char>| #[trigger] m.contains_key(k) ==> self.index@[k] as int
                == m[k].off
        }
    }

    /// The engine invariant: a consistent index over a fully replayable
    /// log, with the modification counter below the compaction threshold.
    pub closed spec fn wf(&self) -> bool {
        &&& self.index.wf()
        &&& self.modification_ct < COMPACT_MODIFICATION_CT
        &&& self.corresponds()
    }

    /// The live index the log replays to.  Meaningful only when the store
    /// corresponds to its log.
    closed spec fn live(&self) -> LiveIndex {
        match replay(self.log@) {
            ReplayResult::Recovered { index, .. } => index,
            ReplayResult::Corrupt { .. } => Map::empty(),
        }
    }

    /// Rewrites the log to one `Put` record per live key once the
    /// modification counter reaches the threshold; otherwise does nothing.
    fn maybe_compact(&mut self)
        requires
            old(self).index.wf(),
            old(self).corresponds(),
        ensures
            final(self).wf(),
            final(self)@ == old(self)@,
            old(self).mod_count() < COMPACT_MODIFICATION_CT ==> *final(self) == *old(self),
            old(self).mod_count() >= COMPACT_MODIFICATION_CT ==> ({
                &&& compacted_form(final(self).log_view(), final(self)@)
                &&& final(self).mod_count() == 0
                &&& final(self).compaction_count() == bumped(old(self).compaction_count())
            }),
    {
        if self.modification_ct < COMPACT_MODIFICATION_CT {
            return ;
        }
        let ghost m0 = self.live();
        let ghost state = state_of(m0);
        let ghost oldev = self.index.entries_view();
        let ghost keys = oldev.map_values(|p: (Seq<char>, u64)| p.0);
        proof {
            lemma_replay_from_index_wf(self.log@, 0, Map::empty(), 0, 0);
            self.index.lemma_entry_facts();
            assert(keys.no_duplicates());
        }
        let n = self.index.entry_count();
        let mut new_log: Vec<u8> = Vec::new();
        let mut new_index = Index::new();
        let ghost mut mnew: LiveIndex = Map::empty();
        let mut j: usize = 0;
        proof {
            assert(new_log@ =~= puts_log(keys.subrange(0, 0), state));
            assert(mnew.dom() =~= keys.subrange(0, 0).to_set());
        }
        while j < n
            invariant
                self == old(self),
                self.index.wf(),
                self.corresponds(),
                index_wf(self.log@, m0),
                m0 == self.live(),
                state == state_of(m0),
                oldev == self.index.entries_view(),
                keys == oldev.map_values(|p: (Seq<char>, u64)| p.0),
                keys.no_duplicates(),
                n == oldev.len(),
                0 <= j <= n,
                forall|i: int| 0 <= i < n ==> m0.contains_key(#[trigger] keys[i]),
                forall|i: int| 0 <= i < n ==> (#[trigger] oldev[i]).1 as int == m0[keys[i]].off,
                new_index.wf(),
                replay(new_log@) == (ReplayResult::Recovered {
                    index: mnew,
                    mods: 0nat,
                    end: new_log@.len() as int,
                    count: j as nat,
                }),
                new_log@ == puts_log(keys.subrange(0, j as int), state),
                mnew.dom() == keys.subrange(0, j as int).to_set(),
                forall|k: Seq<char>| #[trigger] mnew.contains_key(k) ==> mnew[k].value == state[k],
                new_index@.dom() == mnew.dom(),
                forall|k: Seq<char>| #[trigger] mnew.contains_key(k) ==> new_index@[k] as int
                    == mnew[k].off,
            decreases n - j,
        {
            let off = self.index.off_at(j);
            proof {
                assert(oldev[j as int].1 == off);
                assert(m0.contains_key(keys[j as int]));
                assert(m0[keys[j as int]].off == off as int);
            }
            let l = self.log.len();
            proof {
                assert(parse_record(self.log@, off as int) matches ParseOutcome::Parsed { .. });
                assert(off < l);
            }
            let d = decode_record(&self.log, off as usize);
            let (fk, value) = match d {
                DecodeOutcome::Decoded { entry, .. } => match entry {
                    LogEntry::Put { key, value } => (key, value),
                    LogEntry::Remove { .. } => vstd::pervasive::unreached(),
                },
                _ => vstd::pervasive::unreached(),
            };
            proof {
                assert(fk@ == keys[j as int]);
                assert(value@ == m0[keys[j as int]].value);
                assert(state.contains_key(fk@) && state[fk@] == value@);
                assert(!keys.subrange(0, j as int).contains(keys[j as int]));
                assert(!mnew.contains_key(fk@));
            }
            let new_off = new_log.len();
            new_index.push_fresh(fk.clone(), new_off as u64);
            let entry = LogEntry::Put { key: fk, value };
            let ghost prev_log = new_log@;
            append_entry(&mut new_log, &entry);
            proof {
                lemma_replay_append(prev_log, 0, Map::empty(), 0, 0, entry@);
                mnew = mnew.insert(keys[j as int], LiveEntry { off: new_off as int, value: state[keys[j as int]] });
                assert(keys.subrange(0, j + 1int).drop_last() =~= keys.subrange(0, j as int));
                assert(keys.subrange(0, j + 1int).last() == keys[j as int]);
                assert(new_log@ =~= puts_log(keys.subrange(0, j + 1int), state));
                assert(mnew.dom() =~= keys.subrange(0, j + 1int).to_set());
            }
            j = j + 1;
        }
        proof {
            assert(keys.subrange(0, n as int) =~= keys);
        }
        self.log = new_log;
        self.index = new_index;
        self.modification_ct = 0;
        if self.compaction_ct < u64::MAX {
            self.compaction_ct = self.compaction_ct + 1;
        }
        proof {
            assert(keys.to_set() =~= state.dom()) by {
                assert forall|k: Seq<char>| state.dom().contains(k) implies keys.to_set().contains(
                    k,
                ) by {
                    assert(m0.contains_key(k));
                    assert(old(self).index@.dom().contains(k));
                    let i = choose|i: int|
                        0 <= i < oldev.len() && (#[trigger] oldev[i]).0 == k;
                    assert(keys[i] == k);
                }
            }
            assert(compacted_form(self.log@, state));
            assert(state_of(mnew) =~= state);
            assert(self@ == state);
            assert(self.corresponds());
        }
    }

    /// Opens a store from the bytes of its log file.
    ///
    /// Replays the log from the start, rebuilding the index and the
    /// modification counter.  A torn tail (an incomplete final record,
    /// as a crash may leave) is discarded; a malformed record is
    /// corruption and fails with `LogParse`, carrying the count of
    /// records replayed before it.  A store whose counter starts at or
    /// past the threshold compacts immediately.
    pub fn open(log_bytes: Vec<u8>) -> (r: Result<KvStore, KvsError>)
        ensures
            match replay(log_bytes@) {
                ReplayResult::Recovered { index: m, mods, end, .. } => r matches Ok(store) && ({
                    &&& store.wf()
                    &&& store@ == state_of(m)
                    &&& if mods < COMPACT_MODIFICATION_CT as nat {
                        &&& store.log_view() == log_bytes@.subrange(0, end)
                        &&& store.mod_count() as nat == mods
                        &&& store.compaction_count() == 0
                    } else {
                        &&& compacted_form(store.log_view(), store@)
                        &&& store.mod_count() == 0
                        &&& store.compaction_count() == 1
                    }
                }),
                ReplayResult::Corrupt { entry_number } => r matches Err(e) && (e matches
                    KvsError::LogParse { entry_number: n } && n as nat == entry_number),
            },
    {
        let ghost orig = log_bytes@;
        let mut index = Index::new();
        let ghost mut m: LiveIndex = Map::empty();
        let mut modification_ct: u64 = 0;
        let mut entry_number: usize = 0;
        let mut pos: usize = 0;
        proof {
            assert(index@.dom() =~= m.dom());
        }
        loop
            invariant_except_break
                pos <= orig.len(),
                orig == log_bytes@,
                index.wf(),
                index_wf(orig, m),
                index@.dom() == m.dom(),
                forall|k: Seq<char>| #[trigger] m.contains_key(k) ==> index@[k] as int == m[k].off,
                replay(orig) == replay_from(
                    orig,
                    pos as int,
                    m,
                    modification_ct as nat,
                    entry_number as nat,
                ),
                modification_ct as int <= entry_number as int,
                9 * (entry_number as int) <= pos as int,
            ensures
                pos <= orig.len(),
                index.wf(),
                index_wf(orig, m),
                index@.dom() == m.dom(),
                forall|k: Seq<char>| #[trigger] m.contains_key(k) ==> index@[k] as int == m[k].off,
                replay(orig) == (ReplayResult::Recovered {
                    index: m,
                    mods: modification_ct as nat,
                    end: pos as int,
                    count: entry_number as nat,
                }),
            decreases orig.len() - pos,
        {
            let d = decode_record(&log_bytes, pos);
            match d {
                DecodeOutcome::EndOfInput => {
                    break ;
                },
                DecodeOutcome::Incomplete => {
                    break ;
                },
                DecodeOutcome::Malformed => {
                    return Err(KvsError::LogParse { entry_number });
                },
                DecodeOutcome::Decoded { entry, next } => {
                    let ghost ev = entry@;
                    let ghost mprev = m;
                    let ghost wprev = modification_ct;
                    proof {
                        lemma_parse_record_bounds(orig, pos as int);
                        assert((entry_number as int) < u64::MAX as int) by {
                            assert(9 * (entry_number as int) <= pos as int <= usize::MAX as int);
                        }
                    }
                    match entry {
                        LogEntry::Put { key, value } => {
                            let ghost k = key@;
                            let ghost v = value@;
                            if index.contains(&key) {
                                modification_ct = modification_ct + 1;
                            }
                            index.insert(key, pos as u64);
                            proof {
                                m = m.insert(k, LiveEntry { off: pos as int, value: v });
                                assert(index@.dom() =~= m.dom());
                            }
                        },
                        LogEntry::Remove { key } => {
                            let ghost k = key@;
                            if index.remove(&key) {
                                modification_ct = modification_ct + 1;
                            }
                            proof {
                                m = m.remove(k);
                                assert(index@.dom() =~= m.dom());
                            }
                        },
                    }
                    proof {
                        assert(m == step_index(mprev, ev, pos as int));
                        assert(modification_ct as nat == step_mods(mprev, ev, wprev as nat));
                        assert(replay_from(orig, pos as int, mprev, wprev as nat, entry_number as nat)
                            == replay_from(orig, next as int, m, modification_ct as nat, (
                        entry_number + 1) as nat));
                        assert(9 * (entry_number as int + 1) <= next as int);
                    }
                    entry_number = entry_number + 1;
                    pos = next;
                },
            }
        }
        let mut log = log_bytes;
        log.truncate(pos);
        proof {
            lemma_replay_take_end(orig, 0, Map::empty(), 0, 0);
            assert(log@ == orig.subrange(0, pos as int));
            assert(replay(log@) == (ReplayResult::Recovered {
                index: m,
                mods: modification_ct as nat,
                end: pos as int,
                count: entry_number as nat,
            }));
        }
        let mut store = KvStore { log, index, modification_ct, compaction_ct: 0u64 };
        proof {
            assert(store.corresponds());
        }
        store.maybe_compact();
        Ok(store)
    }

    /// Binds `key` to `value`.
    ///
    /// Appends one `Put` record at the end of the log and points the
    /// index at it, counting a superseded record when the key was already
    /// live; then compacts if the counter reached the threshold.
    pub fn set(&mut self, key: String, value: String) -> (r: Result<(), KvsError>)
        requires
            old(self).wf(),
        ensures
            r is Ok,
            final(self).wf(),
            final(self)@ == old(self)@.insert(key@, value@),
            ({
                let w = old(self).mod_count() as int + if old(self)@.contains_key(key@) {
                    1int
                } else {
                    0int
                };
                if w < COMPACT_MODIFICATION_CT as int {
                    &&& final(self).log_view() == old(self).log_view() + encode_entry(
                        EntryModel::Put { key: key@, value: value@ },
                    )
                    &&& final(self).mod_count() as int == w
                    &&& final(self).compaction_count() == old(self).compaction_count()
                } else {
                    &&& compacted_form(final(self).log_view(), final(self)@)
                    &&& final(self).mod_count() == 0
                    &&& final(self).compaction_count() == bumped(old(self).compaction_count())
                }
            }),
    {
        let ghost m0 = self.live();
        let offs = self.log.len();
        if self.index.contains(&key) {
            self.modification_ct = self.modification_ct + 1;
        }
        self.index.insert(key.clone(), offs as u64);
        let entry = LogEntry::Put { key, value };
        append_entry(&mut self.log, &entry);
        proof {
            lemma_replay_append(old(self).log@, 0, Map::empty(), 0, 0, entry@);
            assert(self.index@.dom() =~= step_index(m0, entry@, offs as int).dom());
            assert(self.corresponds());
            assert(self@ =~= state_of(m0).insert(entry@->Put_key, entry@->Put_value));
        }
        self.maybe_compact();
        Ok(())
    }

    /// Looks `key` up: `None` when the key is not live, otherwise the
    /// value of the `Put` record the index points at.
    ///
    /// Never an error on a well-formed store: a missing key is a `None`,
    /// and the corruption cases (`LogLookup`, `LogEntryKindInvalid`,
    /// `LogEntryKeyMismatch`) are ruled out by the store's invariant.
    pub fn get(&mut self, key: String) -> (r: Result<Option<String>, KvsError>)
        requires
            old(self).wf(),
        ensures
            *final(self) == *old(self),
            old(self)@.contains_key(key@) ==> (r matches Ok(opt) && opt matches Some(v) && v@
                == old(self)@[key@]),
            !old(self)@.contains_key(key@) ==> r == Ok::<Option<String>, KvsError>(None),
    {
        proof {
            lemma_replay_from_index_wf(self.log@, 0, Map::empty(), 0, 0);
        }
        match self.index.get(&key) {
            None => Ok(None),
            Some(offs) => {
                let ghost m = self.live();
                proof {
                    assert(m.contains_key(key@) && m[key@].off == offs as int);
                    assert(parse_record(self.log@, offs as int) matches ParseOutcome::Parsed {
                        ..
                    });
                }
                let l = self.log.len();
                proof {
                    assert(offs < l);
                }
                let d = decode_record(&self.log, offs as usize);
                match d {
                    DecodeOutcome::Decoded { entry, .. } => match entry {
                        LogEntry::Put { key: found_key, value } => {
                            if found_key == key {
                                Ok(Some(value))
                            } else {
                                Err(KvsError::LogEntryKeyMismatch { key, found_key, offs })
                            }
                        },
                        LogEntry::Remove { key: found_key } => Err(
                            KvsError::LogEntryKindInvalid { key, offs, found_key },
                        ),
                    },
                    _ => Err(KvsError::LogLookup { key, offs, cause: String::new() }),
                }
            },
        }
    }

    /// Unbinds `key`.
    ///
    /// A key that is not live fails with `RemoveNonexistentKey` and
    /// changes nothing.  Otherwise the key leaves the index, one `Remove`
    /// record is appended (always superseding the key's `Put`), and the
    /// engine compacts if the counter reached the threshold.
    pub fn remove(&mut self, key: String) -> (r: Result<(), KvsError>)
        requires
            old(self).wf(),
        ensures
            final(self).wf(),
            final(self)@ == old(self)@.remove(key@),
            !old(self)@.contains_key(key@) ==> (*final(self) == *old(self) && (r matches Err(e)
                && e matches KvsError::RemoveNonexistentKey { key: k } && k@ == key@)),
            old(self)@.contains_key(key@) ==> (r is Ok && ({
                let w = old(self).mod_count() as int + 1;
                if w < COMPACT_MODIFICATION_CT as int {
                    &&& final(self).log_view() == old(self).log_view() + encode_entry(
                        EntryModel::Remove { key: key@ },
                    )
                    &&& final(self).mod_count() as int == w
                    &&& final(self).compaction_count() == old(self).compaction_count()
                } else {
                    &&& compacted_form(final(self).log_view(), final(self)@)
                    &&& final(self).mod_count() == 0
                    &&& final(self).compaction_count() == bumped(old(self).compaction_count())
                }
            })),
    {
        let ghost m0 = self.live();
        if !self.index.contains(&key) {
            proof {
                assert(old(self)@ =~= old(self)@.remove(key@));
            }
            return Err(KvsError::RemoveNonexistentKey { key });
        }
        self.modification_ct = self.modification_ct + 1;
        self.index.remove(&key);
        let entry = LogEntry::Remove { key };
        append_entry(&mut self.log, &entry);
        proof {
            lemma_replay_append(old(self).log@, 0, Map::empty(), 0, 0, entry@);
            assert(self.index@.dom() =~= step_index(m0, entry@, old(self).log@.len() as int).dom());
            assert(self.corresponds());
            assert(self@ =~= state_of(m0).remove(entry@->Remove_key));
        }
        self.maybe_compact();
        Ok(())
    }

    /// The log bytes, exactly as a log file would hold them.
    pub fn log_bytes(&self) -> (r: &Vec<u8>)
        ensures
            r@ == self.log_view(),
    {
        &self.log
    }

    /// The length of the log in bytes.
    pub fn log_len(&self) -> (r: usize)
        ensures
            r == self.log_view().len(),
    {
        self.log.len()
    }

    /// How many compactions have run, saturating at the top of `u64`.
    pub fn compactions(&self) -> (r: u64)
        ensures
            r == self.compaction_count(),
    {
        self.compaction_ct
    }
}

/// Read-your-writes: after `set(k, v)` the state binds `k` to `v`, and
/// keeps binding it to `v` across a `set` or `remove` of any other key,
/// until the next `set(k, _)` or `remove(k)`.  States the law over the
/// abstract states that the contracts of `set`, `remove` and `get` use.
pub proof fn lemma_read_your_writes(
    m: Map<Seq<char>, Seq<char>>,
    k: Seq<char>,
    v: Seq<char>,
    k2: Seq<char>,
    v2: Seq<char>,
)
    requires
        k2 != k,
    ensures
        m.insert(k, v).contains_key(k) && m.insert(k, v)[k] == v,
        m.insert(k, v).insert(k2, v2).contains_key(k) && m.insert(k, v).insert(k2, v2)[k] == v,
        m.insert(k, v).remove(k2).contains_key(k) && m.insert(k, v).remove(k2)[k] == v,
{
}

/// Last-writer-wins: after `set(k, v1); set(k, v2)` the state binds `k`
/// to `v2`.
pub proof fn lemma_last_writer_wins(
    m: Map<Seq<char>, Seq<char>>,
    k: Seq<char>,
    v1: Seq<char>,
    v2: Seq<char>,
)
    ensures
        m.insert(k, v1).insert(k, v2).contains_key(k),
        m.insert(k, v1).insert(k, v2)[k] == v2,
{
}

/// Remove hides: after `set(k, v); remove(k)` the key is not live, so
/// `get(k)` returns `None` and a second `remove(k)` fails with
/// `RemoveNonexistentKey`, by the contracts of `get` and `remove`.
pub proof fn lemma_remove_hides(m: Map<Seq<char>, Seq<char>>, k: Seq<char>, v: Seq<char>)
    ensures
        !m.insert(k, v).remove(k).contains_key(k),
{
}

/// Durability across reopen: a well-formed store's log bytes replay to
/// exactly the store's abstract state, ending cleanly at the end of the
/// log with the store's own modification counter.  By the contract of
/// `open`, opening those bytes therefore yields a store with the same
/// state.
pub proof fn lemma_durability(s: &KvStore)
    requires
        s.wf(),
    ensures
        replay(s.log_view()) matches ReplayResult::Recovered { index, mods, end, .. } && {
            &&& state_of(index) == s@
            &&& end == s.log_view().len()
            &&& mods == s.mod_count() as nat
            &&& (s.mod_count() as nat) < COMPACT_MODIFICATION_CT as nat
        },
{
}

/// Compaction is transparent and bounds the live set: a log in compacted
/// form replays to exactly the state it was written from, supersedes
/// nothing, and holds exactly one record per live key — all of them `Put`
/// records by the form itself.
pub proof fn lemma_compacted_log(log: Seq<u8>, state: Map<Seq<char>, Seq<char>>)
    requires
        compacted_form(log, state),
        state_fits(state),
    ensures
        replay(log) matches ReplayResult::Recovered { index, mods, end, count } && {
            &&& state_of(index) == state
            &&& mods == 0
            &&& end == log.len()
            &&& count == state.dom().len()
        },
{
    let keys = choose|keys: Seq<Seq<char>>|
        {
            &&& keys.no_duplicates()
            &&& keys.to_set() == state.dom()
            &&& log == puts_log(keys, state)
        };
    assert(forall|i: int| 0 <= i < keys.len() ==> state.contains_key(#[trigger] keys[i])) by {
        assert(forall|i: int| 0 <= i < keys.len() ==> keys.to_set().contains(#[trigger] keys[i]));
    }
    lemma_replay_puts(keys, state);
    keys.unique_seq_to_set();
    if let ReplayResult::Recovered { index, .. } = replay(log) {
        assert(state_of(index) =~= state);
    }
}

} // verus!
