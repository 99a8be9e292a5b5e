use vstd::prelude::*;

use crate::codec::Command;
use crate::codec::CommandView;
use crate::codec::concat_encodes;
use crate::codec::decode_one;
use crate::codec::lemma_concat_encodes_first;
use crate::codec::lemma_decode_of_encode;
use crate::codec::lemma_encode_len;
use crate::codec::lemma_records_of_exact;
use crate::codec::records_of;
use crate::codec::spec_encode;
use crate::codec::wf_command;
use crate::error::KvsError;
use crate::index::IndexEntry;
use crate::index::find_entry;
use crate::index::index_map;
use crate::index::lemma_index_map_contains;
use crate::index::lemma_index_map_lookup;
use crate::index::lemma_index_map_remove;
use crate::index::lemma_index_map_same_kv;
use crate::index::lemma_remove_indexing;
use crate::index::unique_keys;
use crate::log::AppendLog;
use crate::log::LogPointer;
use crate::log::Segment;
use crate::log::SegmentFile;
use crate::log::files_records;
use crate::log::scan_records;
use crate::log::seg_records;

verus! {

/// Dead records tolerated in the log before `maybe_compact` rewrites it.
pub const DEAD_RECORDS_THRESHOLD: u64 = 8;

/// The net effect of one record on the key space: last writer wins, a
/// `Remove` fully erases the key.
pub open spec fn apply_command(m: Map<Seq<u8>, Seq<u8>>, c: CommandView) -> Map<Seq<u8>, Seq<u8>> {
    match c {
        CommandView::Put { key, value } => m.insert(key, value),
        CommandView::Remove { key } => m.remove(key),
    }
}

/// The key-value map left by replaying a record sequence over an empty
/// store, in order.
pub open spec fn replay(rs: Seq<CommandView>) -> Map<Seq<u8>, Seq<u8>>
    decreases rs.len(),
{
    if rs.len() == 0 {
        Map::<Seq<u8>, Seq<u8>>::empty()
    } else {
        apply_command(replay(rs.drop_last()), rs.last())
    }
}

/// Last-writer-wins, per key: after a `Put` the key reads back the new
/// value; after a `Remove` the key is absent; no other key changes.
pub proof fn lemma_last_writer_wins(
    m: Map<Seq<u8>, Seq<u8>>,
    k: Seq<u8>,
    v: Seq<u8>,
    other: Seq<u8>,
)
    ensures
        apply_command(m, CommandView::Put { key: k, value: v }).contains_key(k),
        apply_command(m, CommandView::Put { key: k, value: v })[k] == v,
        !apply_command(m, CommandView::Remove { key: k }).contains_key(k),
        other != k ==> apply_command(m, CommandView::Put { key: k, value: v }).contains_key(other)
            == m.contains_key(other),
        other != k && m.contains_key(other) ==> apply_command(
            m,
            CommandView::Put { key: k, value: v },
        )[other] == m[other],
        other != k ==> apply_command(m, CommandView::Remove { key: k }).contains_key(other)
            == m.contains_key(other),
        other != k && m.contains_key(other) ==> apply_command(
            m,
            CommandView::Remove { key: k },
        )[other] == m[other],
{
}

/// Replay processes operations in order: the map after a sequence of
/// operations plus one more is the one-step effect of that operation on
/// the map after the sequence.  Together with `lemma_last_writer_wins`
/// this pins down `get` after any sequence of `set`s and `remove`s.
pub proof fn lemma_replay_snoc(rs: Seq<CommandView>, c: CommandView)
    ensures
        replay(rs.push(c)) == apply_command(replay(rs), c),
{
    assert(rs.push(c).drop_last() =~= rs);
}

/// The `Put` records compaction writes for an index snapshot, in order.
pub open spec fn put_records(es: Seq<IndexEntry>) -> Seq<CommandView>
    decreases es.len(),
{
    if es.len() == 0 {
        Seq::<CommandView>::empty()
    } else {
        put_records(es.drop_last()).push(
            CommandView::Put { key: es.last().key@, value: es.last().value@ },
        )
    }
}

/// Replaying the records compaction writes rebuilds exactly the map the
/// snapshot denoted: rewriting only live entries loses nothing.
pub proof fn lemma_replay_put_records(es: Seq<IndexEntry>)
    ensures
        replay(put_records(es)) == index_map(es),
        put_records(es).len() == es.len(),
    decreases es.len(),
{
    if es.len() > 0 {
        lemma_replay_put_records(es.drop_last());
        assert(put_records(es).drop_last() =~= put_records(es.drop_last()));
        assert(put_records(es).last() == (CommandView::Put {
            key: es.last().key@,
            value: es.last().value@,
        }));
    }
}

/// The log-structured key-value store: an append-only log of records and
/// an in-memory index from each live key to its most recent `Put`.
pub struct KvStore {
    pub log: AppendLog,
    pub index: Vec<IndexEntry>,
    /// Lower bound on the number of dead records, tracked incrementally so
    /// that the compaction decision needs no scan.
    pub dead: u64,
}

impl View for KvStore {
    type V = Map<Seq<u8>, Seq<u8>>;

    open spec fn view(&self) -> Map<Seq<u8>, Seq<u8>> {
        index_map(self.index@)
    }
}

impl KvStore {
    /// Records in the log not reachable through the index (superseded
    /// `Put`s, all `Remove`s, and `Put`s of since-removed keys).
    pub open spec fn dead_count(self) -> int {
        self.log.records().len() - self.index@.len()
    }

    /// Well-formedness: the log's segments hold exactly their records,
    /// every index entry points at the bytes of a `Put` with its key and
    /// value, keys are indexed at most once, and the index equals the
    /// replay of the whole log — so a crash and replay lose nothing.
    pub open spec fn wf(self) -> bool {
        &&& self.log.wf()
        &&& self.log.segments@.len() > 0
        &&& unique_keys(self.index@)
        &&& forall|i: int|
            0 <= i < self.index@.len() ==> self.log.valid_ptr(
                (#[trigger] self.index@[i]).ptr,
                CommandView::Put { key: self.index@[i].key@, value: self.index@[i].value@ },
            )
        &&& index_map(self.index@) == replay(self.log.records())
        &&& self.dead as int <= self.dead_count()
    }

    /// Applies one durably appended record to the index, last-writer-wins.
    /// `rc` is the count of log records before this one.
    fn apply_record_to_index(
        log: &AppendLog,
        index: &mut Vec<IndexEntry>,
        dead: &mut u64,
        cmd: Command,
        ptr: LogPointer,
        Ghost(rc): Ghost<int>,
    )
        requires
            unique_keys(old(index)@),
            forall|i: int|
                0 <= i < old(index)@.len() ==> log.valid_ptr(
                    (#[trigger] old(index)@[i]).ptr,
                    CommandView::Put {
                        key: old(index)@[i].key@,
                        value: old(index)@[i].value@,
                    },
                ),
            cmd@ matches CommandView::Put { key, value } ==> log.valid_ptr(ptr, cmd@),
            *old(dead) as int <= rc - old(index)@.len(),
        ensures
            unique_keys(final(index)@),
            forall|i: int|
                0 <= i < final(index)@.len() ==> log.valid_ptr(
                    (#[trigger] final(index)@[i]).ptr,
                    CommandView::Put {
                        key: final(index)@[i].key@,
                        value: final(index)@[i].value@,
                    },
                ),
            index_map(final(index)@) == apply_command(index_map(old(index)@), cmd@),
            *final(dead) as int <= rc + 1 - final(index)@.len(),
    {
        let ghost m0 = index_map(index@);
        match cmd {
            Command::Put(sc) => {
                let ghost k = sc.key@;
                let ghost v = sc.value@;
                match find_entry(index, &sc.key) {
                    Some(i) => {
                        proof {
                            lemma_index_map_remove(index@, i as int);
                            lemma_remove_indexing(index@, i as int);
                        }
                        let ghost before = index@;
                        index.remove(i);
                        proof {
                            assert forall|a: int, b: int|
                                0 <= a < b < index@.len() implies (#[trigger] index@[a]).key@ != (
                            #[trigger] index@[b]).key@ by {
                                assert(index@[a] == (if a < i { before[a] } else { before[a + 1] }));
                                assert(index@[b] == (if b < i { before[b] } else { before[b + 1] }));
                            }
                            assert forall|a: int| 0 <= a < index@.len() implies index@[a].key@ != k
                            by {
                                assert(index@[a] == (if a < i { before[a] } else { before[a + 1] }));
                            }
                        }
                        *dead = if *dead < u64::MAX {
                            *dead + 1
                        } else {
                            *dead
                        };
                    },
                    None => {
                        proof {
                            lemma_index_map_contains(index@, k);
                            assert(!m0.contains_key(k));
                            assert(m0.remove(k) =~= m0);
                        }
                    },
                }
                let ghost mid = index@;
                index.push(IndexEntry { key: sc.key, ptr, value: Ghost(v) });
                proof {
                    assert(index@.drop_last() =~= mid);
                    assert(index@.last().key@ == k && index@.last().value@ == v);
                    assert(index_map(index@) == index_map(mid).insert(k, v));
                    assert(m0.remove(k).insert(k, v) =~= m0.insert(k, v));
                    assert forall|a: int, b: int|
                        0 <= a < b < index@.len() implies (#[trigger] index@[a]).key@ != (
                    #[trigger] index@[b]).key@ by {
                        if b == index@.len() - 1 {
                            assert(index@[a] == mid[a]);
                        }
                    }
                }
            },
            Command::Remove { key } => {
                let ghost k = key@;
                match find_entry(index, &key) {
                    Some(i) => {
                        proof {
                            lemma_index_map_remove(index@, i as int);
                            lemma_remove_indexing(index@, i as int);
                        }
                        let ghost before = index@;
                        index.remove(i);
                        proof {
                            assert forall|a: int, b: int|
                                0 <= a < b < index@.len() implies (#[trigger] index@[a]).key@ != (
                            #[trigger] index@[b]).key@ by {
                                assert(index@[a] == (if a < i { before[a] } else { before[a + 1] }));
                                assert(index@[b] == (if b < i { before[b] } else { before[b + 1] }));
                            }
                        }
                        *dead = if *dead < u64::MAX - 1 {
                            *dead + 2
                        } else {
                            u64::MAX
                        };
                    },
                    None => {
                        proof {
                            lemma_index_map_contains(index@, k);
                            assert(!m0.contains_key(k));
                            assert(m0.remove(k) =~= m0);
                        }
                        *dead = if *dead < u64::MAX {
                            *dead + 1
                        } else {
                            *dead
                        };
                    },
                }
            },
        }
    }

    /// Opens a store from the persisted segment files, given in ascending
    /// id order, replaying every record in order to rebuild the index.  A
    /// torn tail in any segment — a crash mid-write — is tolerated: that
    /// segment's replay stops at its last well-formed record.
    pub fn open(files: Vec<SegmentFile>) -> (r: Result<KvStore, KvsError>)
        requires
            forall|i: int, j: int|
                0 <= i < j < files@.len() ==> (#[trigger] files@[i]).id < (
                #[trigger] files@[j]).id,
        ensures
            match r {
                Ok(s) => s.wf() && s@ == replay(files_records(files@)),
                Err(_) => false,
            },
    {
        let ghost orig = files@;
        let mut files = files;
        let mut log = AppendLog { segments: Vec::new() };
        let mut index: Vec<IndexEntry> = Vec::new();
        let mut dead: u64 = 0;
        let mut fi: usize = 0;
        proof {
            assert(files@ =~= orig.skip(0));
            assert(orig.take(0).len() == 0);
            assert(log.records() =~= files_records(orig.take(0)));
            assert(index_map(index@) =~= replay(log.records()));
        }
        while files.len() > 0
            invariant
                fi as int + files@.len() == orig.len(),
                files@ == orig.skip(fi as int),
                forall|i: int, j: int|
                    0 <= i < j < orig.len() ==> (#[trigger] orig[i]).id < (#[trigger] orig[j]).id,
                log.wf(),
                log.segments@.len() == fi as int,
                forall|i: int| 0 <= i < fi as int ==> (#[trigger] log.segments@[i]).id == orig[i].id,
                log.records() == files_records(orig.take(fi as int)),
                unique_keys(index@),
                forall|i: int|
                    0 <= i < index@.len() ==> log.valid_ptr(
                        (#[trigger] index@[i]).ptr,
                        CommandView::Put { key: index@[i].key@, value: index@[i].value@ },
                    ),
                index_map(index@) == replay(log.records()),
                dead as int <= log.records().len() - index@.len(),
            decreases files@.len(),
        {
            let f = files.remove(0);
            let fid = f.id;
            let ghost fdata = f.data@;
            proof {
                assert(f == orig[fi as int]);
                assert(files@ =~= orig.skip(fi as int + 1));
            }
            let (end, rs_g) = scan_records(&f.data);
            let ghost rs = rs_g@;
            let mut data = f.data;
            data.truncate(end);
            let seg = Segment { id: fid, data, records: Ghost(rs) };
            proof {
                assert(seg.data@ == concat_encodes(rs));
                assert(seg.wf());
            }
            let ghost presegs = log.segments@;
            let ghost prerecs = log.records();
            log.segments.push(seg);
            proof {
                assert(log.segments@.drop_last() =~= presegs);
                assert(log.records() =~= prerecs + rs);
                assert(orig.take(fi as int + 1).drop_last() =~= orig.take(fi as int));
                assert(orig.take(fi as int + 1).last() == orig[fi as int]);
                assert(rs == records_of(fdata));
                assert(log.records() == files_records(orig.take(fi as int + 1)));
                assert forall|a: int, b: int|
                    0 <= a < b < log.segments@.len() implies (#[trigger] log.segments@[a]).id < (
                #[trigger] log.segments@[b]).id by {
                    if b < fi as int {
                        assert(log.segments@[a] == presegs[a] && log.segments@[b] == presegs[b]);
                    } else {
                        assert(log.segments@[a].id == orig[a].id && log.segments@[b].id == orig[
                            fi as int].id);
                    }
                }
                assert forall|i: int| 0 <= i < index@.len() implies log.valid_ptr(
                    (#[trigger] index@[i]).ptr,
                    CommandView::Put { key: index@[i].key@, value: index@[i].value@ },
                ) by {
                    let q = index@[i].ptr;
                    let c = CommandView::Put { key: index@[i].key@, value: index@[i].value@ };
                    let k = choose|k: int|
                        0 <= k < presegs.len() && (#[trigger] presegs[k]).id == q.segment_id
                            && q.offset + q.length <= presegs[k].data@.len()
                            && presegs[k].data@.subrange(
                            q.offset as int,
                            q.offset as int + q.length as int,
                        ) == spec_encode(c) && wf_command(c);
                    assert(log.segments@[k] == presegs[k]);
                }
            }
            let nsegs = log.segments.len();
            let dlen = log.segments[nsegs - 1].data.len();
            let mut pos: usize = 0;
            let ghost mut j: int = 0;
            let ghost d = log.segments@[nsegs as int - 1].data@;
            proof {
                assert(d.skip(0) =~= d);
                assert(rs.skip(0) =~= rs);
                assert(prerecs + rs.take(0) =~= prerecs);
            }
            while pos < dlen
                invariant
                    0 <= j <= rs.len(),
                    pos <= dlen,
                    dlen == d.len(),
                    d == log.segments@[nsegs as int - 1].data@,
                    1 <= nsegs,
                    nsegs as int == log.segments@.len(),
                    log.segments@[nsegs as int - 1].id == fid,
                    d.skip(pos as int) == concat_encodes(rs.skip(j)),
                    forall|i: int| 0 <= i < rs.len() ==> wf_command(#[trigger] rs[i]),
                    unique_keys(index@),
                    forall|i: int|
                        0 <= i < index@.len() ==> log.valid_ptr(
                            (#[trigger] index@[i]).ptr,
                            CommandView::Put { key: index@[i].key@, value: index@[i].value@ },
                        ),
                    index_map(index@) == replay(prerecs + rs.take(j)),
                    dead as int <= prerecs.len() + j - index@.len(),
                decreases dlen - pos,
            {
                proof {
                    if j == rs.len() {
                        assert(rs.skip(j).len() == 0);
                        assert(concat_encodes(rs.skip(j)).len() == 0);
                        assert(false);
                    }
                    lemma_concat_encodes_first(rs.skip(j));
                    assert(rs.skip(j).first() == rs[j]);
                    assert(rs.skip(j).drop_first() =~= rs.skip(j + 1));
                    lemma_decode_of_encode(rs[j], concat_encodes(rs.skip(j + 1)));
                    assert(d.skip(pos as int) == spec_encode(rs[j]) + concat_encodes(
                        rs.skip(j + 1),
                    ));
                }
                let dec = decode_one(&log.segments[nsegs - 1].data, pos);
                let pair = match dec {
                    Ok(p) => p,
                    Err(_) => {
                        proof {
                            assert(false);
                        }
                        vstd::pervasive::unreached()
                    },
                };
                let (cmd, n) = pair;
                proof {
                    assert(cmd@ == rs[j]);
                    assert(n as int == spec_encode(rs[j]).len());
                }
                let ptr = LogPointer { segment_id: fid, offset: pos, length: n };
                proof {
                    assert(d.subrange(pos as int, pos as int + n as int) =~= spec_encode(rs[j]));
                    assert(log.valid_ptr(ptr, cmd@));
                }
                Self::apply_record_to_index(
                    &log,
                    &mut index,
                    &mut dead,
                    cmd,
                    ptr,
                    Ghost(prerecs.len() + j),
                );
                proof {
                    assert((prerecs + rs.take(j + 1)).drop_last() =~= prerecs + rs.take(j));
                    assert((prerecs + rs.take(j + 1)).last() == rs[j]);
                    assert(replay(prerecs + rs.take(j + 1)) == apply_command(
                        replay(prerecs + rs.take(j)),
                        rs[j],
                    ));
                    assert(d.skip(pos as int + n as int) =~= d.skip(pos as int).skip(n as int));
                    assert(d.skip(pos as int).skip(n as int) =~= concat_encodes(rs.skip(j + 1)));
                    j = j + 1;
                }
                pos = pos + n;
            }
            proof {
                if j < rs.len() {
                    lemma_concat_encodes_first(rs.skip(j));
                    lemma_encode_len(rs.skip(j).first());
                    assert(concat_encodes(rs.skip(j)).len() >= 9);
                    assert(false);
                }
                assert(rs.take(j) =~= rs);
                assert(index_map(index@) == replay(prerecs + rs));
            }
            fi += 1;
        }
        proof {
            assert(orig.take(fi as int) =~= orig);
        }
        if log.segments.len() == 0 {
            let seg = Segment { id: 1, data: Vec::new(), records: Ghost(Seq::empty()) };
            proof {
                assert(seg.data@ =~= concat_encodes(seg.records@));
            }
            log.segments.push(seg);
            proof {
                assert(log.segments@.drop_last() =~= Seq::<Segment>::empty());
                assert(log.records() =~= files_records(orig));
            }
        }
        let store = KvStore { log, index, dead };
        proof {
            assert(store.wf());
        }
        Ok(store)
    }

    /// Sets the value of a key.  An existing value is overwritten; the
    /// `Put` record is appended to the log before the index changes.
    pub fn set(&mut self, key: Vec<u8>, value: Vec<u8>) -> (r: Result<(), KvsError>)
        requires
            old(self).wf(),
        ensures
            final(self).wf(),
            r is Ok,
            final(self)@ == old(self)@.insert(key@, value@),
    {
        let ghost rc = self.log.records().len() as int;
        let cmd = Command::set(key, value);
        let ptr = self.log.append(&cmd);
        proof {
            assert(self.log.records().drop_last() =~= old(self).log.records());
        }
        Self::apply_record_to_index(
            &self.log,
            &mut self.index,
            &mut self.dead,
            cmd,
            ptr,
            Ghost(rc),
        );
        proof {
            assert(replay(self.log.records()) == apply_command(
                replay(old(self).log.records()),
                CommandView::Put { key: key@, value: value@ },
            ));
        }
        let _ = self.maybe_compact();
        Ok(())
    }

    /// Gets the current value of a key, or nothing when the key is absent.
    /// Resolves the index pointer through the log and decodes the record
    /// it names.
    pub fn get(&self, key: Vec<u8>) -> (r: Result<Option<Vec<u8>>, KvsError>)
        requires
            self.wf(),
        ensures
            match r {
                Ok(v) => match v {
                    Some(v) => self@.contains_key(key@) && v@ == self@[key@],
                    None => !self@.contains_key(key@),
                },
                Err(_) => false,
            },
    {
        match find_entry(&self.index, &key) {
            None => {
                proof {
                    lemma_index_map_contains(self.index@, key@);
                }
                Ok(None)
            },
            Some(i) => {
                proof {
                    lemma_index_map_lookup(self.index@, i as int);
                }
                let e = &self.index[i];
                let got = self.log.read_at(e.ptr);
                proof {
                    assert(self.log.valid_ptr(
                        e.ptr,
                        CommandView::Put { key: e.key@, value: e.value@ },
                    ));
                }
                match got {
                    Ok(cmd) => match cmd {
                        Command::Put(sc) => Ok(Some(sc.value)),
                        Command::Remove { .. } => {
                            proof {
                                assert(false);
                            }
                            Err(KvsError::UnexpectedCommandType)
                        },
                    },
                    Err(_) => {
                        proof {
                            assert(false);
                        }
                        Err(KvsError::CorruptRecord)
                    },
                }
            },
        }
    }

    /// Removes a key.  Fails with `KeyNotFound` (and changes nothing) when
    /// the key is absent; otherwise a `Remove` record is appended to the
    /// log before the key leaves the index.
    pub fn remove(&mut self, key: Vec<u8>) -> (r: Result<(), KvsError>)
        requires
            old(self).wf(),
        ensures
            final(self).wf(),
            old(self)@.contains_key(key@) ==> r == Ok::<(), KvsError>(()) && final(self)@ == old(
                self,
            )@.remove(key@),
            !old(self)@.contains_key(key@) ==> r == Err::<(), KvsError>(KvsError::KeyNotFound)
                && *final(self) == *old(self),
    {
        let found = find_entry(&self.index, &key).is_some();
        proof {
            lemma_index_map_contains(self.index@, key@);
        }
        if !found {
            return Err(KvsError::KeyNotFound);
        }
        let ghost rc = self.log.records().len() as int;
        let cmd = Command::remove(key);
        let ptr = self.log.append(&cmd);
        proof {
            assert(self.log.records().drop_last() =~= old(self).log.records());
        }
        Self::apply_record_to_index(
            &self.log,
            &mut self.index,
            &mut self.dead,
            cmd,
            ptr,
            Ghost(rc),
        );
        proof {
            assert(replay(self.log.records()) == apply_command(
                replay(old(self).log.records()),
                CommandView::Remove { key: key@ },
            ));
        }
        Ok(())
    }
    /// Rewrites only the live records (as the index names them) into a
    /// fresh segment, opens a new active segment after it, and retires
    /// every old segment.  The observable map does not change.
    fn compact_now(&mut self)
        requires
            old(self).wf(),
            old(self).log.active_id() <= u64::MAX - 2,
        ensures
            final(self).wf(),
            final(self)@ == old(self)@,
            final(self).dead_count() == 0,
    {
        let n = self.log.segments.len();
        let old_active = self.log.segments[n - 1].id;
        let mut new_log = AppendLog { segments: Vec::new() };
        let seg = Segment { id: old_active + 1, data: Vec::new(), records: Ghost(Seq::empty()) };
        proof {
            assert(seg.data@ =~= concat_encodes(seg.records@));
        }
        new_log.segments.push(seg);
        proof {
            assert(new_log.wf());
            assert(new_log.segments@.drop_last() =~= Seq::<Segment>::empty());
            assert(seg_records(Seq::<Segment>::empty()).len() == 0);
            assert(new_log.records() == seg_records(new_log.segments@.drop_last())
                + new_log.segments@.last().records@);
            assert(new_log.segments@.last() == seg);
            assert(new_log.records() =~= Seq::<CommandView>::empty());
            assert(put_records(self.index@.take(0)).len() == 0);
            assert(new_log.records() =~= put_records(self.index@.take(0)));
        }
        let mut new_index: Vec<IndexEntry> = Vec::new();
        let total = self.index.len();
        let mut i: usize = 0;
        while i < total
            invariant
                self.wf(),
                self.log.active_id() == old_active,
                total == self.index@.len(),
                i <= total,
                new_log.wf(),
                new_log.active_id() == old_active + 1,
                new_log.segments@.len() == 1,
                new_log.records() == put_records(self.index@.take(i as int)),
                new_index@.len() == i,
                forall|j: int|
                    0 <= j < i as int ==> (#[trigger] new_index@[j]).key@ == self.index@[j].key@
                        && new_index@[j].value@ == self.index@[j].value@,
                forall|j: int|
                    0 <= j < i as int ==> new_log.valid_ptr(
                        (#[trigger] new_index@[j]).ptr,
                        CommandView::Put { key: new_index@[j].key@, value: new_index@[j].value@ },
                    ),
            decreases total - i,
        {
            let e_ptr = self.index[i].ptr;
            proof {
                assert(self.log.valid_ptr(
                    e_ptr,
                    CommandView::Put {
                        key: self.index@[i as int].key@,
                        value: self.index@[i as int].value@,
                    },
                ));
            }
            let got = self.log.read_at(e_ptr);
            let sc = match got {
                Ok(cmd) => match cmd {
                    Command::Put(sc) => sc,
                    Command::Remove { .. } => {
                        proof {
                            assert(false);
                        }
                        vstd::pervasive::unreached()
                    },
                },
                Err(_) => {
                    proof {
                        assert(false);
                    }
                    vstd::pervasive::unreached()
                },
            };
            proof {
                assert(sc.key@ == self.index@[i as int].key@ && sc.value@ == self.index@[
                i as int].value@);
            }
            let ghost v = sc.value@;
            let cmd2 = Command::Put(sc);
            let ptr = new_log.append(&cmd2);
            let sc2 = match cmd2 {
                Command::Put(s) => s,
                Command::Remove { .. } => {
                    proof {
                        assert(false);
                    }
                    vstd::pervasive::unreached()
                },
            };
            new_index.push(IndexEntry { key: sc2.key, ptr, value: Ghost(v) });
            proof {
                assert(self.index@.take(i as int + 1).drop_last() =~= self.index@.take(i as int));
                assert(self.index@.take(i as int + 1).last() == self.index@[i as int]);
                assert(new_log.records() == put_records(self.index@.take(i as int + 1)));
            }
            i += 1;
        }
        proof {
            assert(self.index@.take(total as int) =~= self.index@);
        }
        new_log.roll_segment();
        let ghost old_index = self.index@;
        self.log = new_log;
        self.index = new_index;
        self.dead = 0;
        proof {
            lemma_index_map_same_kv(self.index@, old_index);
            lemma_replay_put_records(old_index);
            assert forall|a: int, b: int|
                0 <= a < b < self.index@.len() implies (#[trigger] self.index@[a]).key@ != (
            #[trigger] self.index@[b]).key@ by {
                assert(self.index@[a].key@ == old_index[a].key@);
                assert(self.index@[b].key@ == old_index[b].key@);
            }
            assert(index_map(self.index@) == replay(self.log.records()));
        }
    }

    /// Runs compaction exactly when the tracked dead-record count exceeds
    /// the threshold (and fresh segment ids remain); reports whether it
    /// ran.  Compaction never changes the observable result of any `get`
    /// or `remove`, and a store with no dead records is never rewritten.
    pub fn maybe_compact(&mut self) -> (ran: bool)
        requires
            old(self).wf(),
        ensures
            final(self).wf(),
            final(self)@ == old(self)@,
            ran == (old(self).dead > DEAD_RECORDS_THRESHOLD && old(self).log.active_id()
                <= u64::MAX - 2),
            !ran ==> *final(self) == *old(self),
            ran ==> final(self).dead_count() == 0,
            old(self).dead_count() == 0 ==> !ran,
    {
        let n = self.log.segments.len();
        let active = self.log.segments[n - 1].id;
        if self.dead > DEAD_RECORDS_THRESHOLD && active <= u64::MAX - 2 {
            self.compact_now();
            true
        } else {
            false
        }
    }

    /// Tears the store down, handing back the image that must reach
    /// durable storage before the data is safe; the handle is consumed.
    pub fn close(self) -> (files: Vec<SegmentFile>)
        ensures
            files@.len() == self.log.segments@.len(),
            forall|i: int|
                0 <= i < files@.len() ==> (#[trigger] files@[i]).id == self.log.segments@[i].id
                    && files@[i].data@ == self.log.segments@[i].data@,
    {
        self.segment_files()
    }

    /// The persisted image of the store: one file per segment, in
    /// ascending id order, holding exactly the segment's bytes.
    pub fn segment_files(&self) -> (files: Vec<SegmentFile>)
        ensures
            files@.len() == self.log.segments@.len(),
            forall|i: int|
                0 <= i < files@.len() ==> (#[trigger] files@[i]).id == self.log.segments@[i].id
                    && files@[i].data@ == self.log.segments@[i].data@,
    {
        let mut files: Vec<SegmentFile> = Vec::new();
        let n = self.log.segments.len();
        let mut i: usize = 0;
        while i < n
            invariant
                i <= n,
                n == self.log.segments@.len(),
                files@.len() == i,
                forall|j: int|
                    0 <= j < i as int ==> (#[trigger] files@[j]).id == self.log.segments@[j].id
                        && files@[j].data@ == self.log.segments@[j].data@,
            decreases n - i,
        {
            let seg = &self.log.segments[i];
            files.push(
                SegmentFile { id: seg.id, data: vstd::slice::slice_to_vec(seg.data.as_slice()) },
            );
            i += 1;
        }
        files
    }
}

/// Replay of files that image a log's segments yields the log's records.
proof fn lemma_files_records_of_segments(segs: Seq<Segment>, files: Seq<SegmentFile>)
    requires
        segs.len() == files.len(),
        forall|i: int| 0 <= i < segs.len() ==> (#[trigger] files[i]).data@ == segs[i].data@,
        forall|i: int| 0 <= i < segs.len() ==> (#[trigger] segs[i]).wf(),
    ensures
        files_records(files) == seg_records(segs),
    decreases segs.len(),
{
    if segs.len() > 0 {
        assert(forall|i: int|
            0 <= i < segs.drop_last().len() ==> (#[trigger] files.drop_last()[i]).data@
                == segs.drop_last()[i].data@);
        assert(forall|i: int|
            0 <= i < segs.drop_last().len() ==> (#[trigger] segs.drop_last()[i]).wf());
        lemma_files_records_of_segments(segs.drop_last(), files.drop_last());
        let s = segs.last();
        assert(s.wf());
        lemma_records_of_exact(s.records@);
        assert(records_of(files.last().data@) == s.records@);
    }
}

/// Crash recovery: replaying the persisted image of a well-formed store
/// rebuilds exactly the store's current map, so `open` on the files that
/// `segment_files` reports yields a store with the same contents — no
/// completed write is lost and none is invented.
pub proof fn lemma_crash_recovery(s: KvStore, files: Seq<SegmentFile>)
    requires
        s.wf(),
        files.len() == s.log.segments@.len(),
        forall|i: int| 0 <= i < files.len() ==> (#[trigger] files[i]).data@ == s.log.segments@[i].data@,
    ensures
        replay(files_records(files)) == s@,
{
    lemma_files_records_of_segments(s.log.segments@, files);
}

} // verus!
