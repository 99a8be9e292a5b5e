use vstd::prelude::*;

use crate::codec::Command;
use crate::codec::CommandView;
use crate::codec::concat_encodes;
use crate::codec::decode_one;
use crate::codec::lemma_concat_encodes_first;
use crate::codec::encode;
use crate::codec::lemma_decode_of_encode;
use crate::codec::lemma_encode_len;
use crate::codec::lemma_encode_of_decode;
use crate::codec::records_of;
use crate::codec::spec_decode;
use crate::codec::spec_encode;
use crate::codec::wf_command;
use crate::error::KvsError;

verus! {

/// Coordinates of one record's bytes: the segment that holds it, the byte
/// offset where it starts within that segment, and its exact length.
#[derive(Debug, Clone, Copy, PartialEq, Eq, Structural)]
pub struct LogPointer {
    pub segment_id: u64,
    pub offset: usize,
    pub length: usize,
}

/// One segment of the append-only log: an identifier and the raw bytes of
/// its records, together with (ghost) the records those bytes spell.
pub struct Segment {
    pub id: u64,
    pub data: Vec<u8>,
    pub records: Ghost<Seq<CommandView>>,
}

impl Segment {
    /// The bytes are exactly the records laid back to back.
    pub open spec fn wf(self) -> bool {
        &&& self.data@ == concat_encodes(self.records@)
        &&& forall|i: int| 0 <= i < self.records@.len() ==> wf_command(#[trigger] self.records@[i])
    }
}

/// The on-disk image of one segment: what `open` reads back and what gets
/// persisted.
#[derive(Debug)]
pub struct SegmentFile {
    pub id: u64,
    pub data: Vec<u8>,
}

/// All records held by a sequence of segments, in replay order.
pub open spec fn seg_records(segs: Seq<Segment>) -> Seq<CommandView>
    decreases segs.len(),
{
    if segs.len() == 0 {
        Seq::<CommandView>::empty()
    } else {
        seg_records(segs.drop_last()) + segs.last().records@
    }
}

/// All records held by a sequence of segment files, in replay order; a
/// torn tail in a file contributes nothing.
pub open spec fn files_records(fs: Seq<SegmentFile>) -> Seq<CommandView>
    decreases fs.len(),
{
    if fs.len() == 0 {
        Seq::<CommandView>::empty()
    } else {
        files_records(fs.drop_last()) + records_of(fs.last().data@)
    }
}

/// The append-only log: segments in ascending id order; the last one is
/// active (writable), all earlier ones are sealed.
pub struct AppendLog {
    pub segments: Vec<Segment>,
}

impl AppendLog {
    pub open spec fn wf(self) -> bool {
        &&& forall|i: int, j: int|
            0 <= i < j < self.segments@.len() ==> (#[trigger] self.segments@[i]).id < (
            #[trigger] self.segments@[j]).id
        &&& forall|i: int| 0 <= i < self.segments@.len() ==> (#[trigger] self.segments@[i]).wf()
    }

    /// Every record in the log, in replay order.
    pub open spec fn records(self) -> Seq<CommandView> {
        seg_records(self.segments@)
    }

    /// The id of the active (last, writable) segment.
    pub open spec fn active_id(self) -> u64
        recommends
            self.segments@.len() > 0,
    {
        self.segments@.last().id
    }

    /// `p` names the exact byte range of the wire form of `c`.
    pub open spec fn valid_ptr(self, p: LogPointer, c: CommandView) -> bool {
        exists|i: int|
            0 <= i < self.segments@.len() && (#[trigger] self.segments@[i]).id == p.segment_id
                && p.offset + p.length <= self.segments@[i].data@.len()
                && self.segments@[i].data@.subrange(
                p.offset as int,
                p.offset as int + p.length as int,
            ) == spec_encode(c) && wf_command(c)
    }

    /// Appends one record at the end of the active segment and returns the
    /// pointer a reader must use to get it back.  Existing pointers stay
    /// valid: appended bytes never disturb written ones.
    pub fn append(&mut self, cmd: &Command) -> (p: LogPointer)
        requires
            old(self).wf(),
            old(self).segments@.len() > 0,
        ensures
            final(self).wf(),
            final(self).segments@.len() == old(self).segments@.len(),
            final(self).records() == old(self).records().push(cmd@),
            final(self).active_id() == old(self).active_id(),
            final(self).valid_ptr(p, cmd@),
            p.segment_id == old(self).active_id(),
            forall|q: LogPointer, c: CommandView|
                old(self).valid_ptr(q, c) ==> final(self).valid_ptr(q, c),
    {
        let enc = encode(cmd);
        let length = enc.len();
        proof {
            lemma_encode_len(cmd@);
            assert(wf_command(cmd@));
        }
        let mut seg = self.segments.pop().unwrap();
        let ghost old_records = seg.records@;
        let ghost old_data = seg.data@;
        let offset = seg.data.len();
        let mut enc2 = enc;
        seg.data.append(&mut enc2);
        let p = LogPointer { segment_id: seg.id, offset, length };
        proof {
            seg.records@ = old_records.push(cmd@);
            assert(seg.records@.drop_last() =~= old_records);
            assert(seg.data@ =~= concat_encodes(old_records) + spec_encode(cmd@));
            assert(seg.data@ == concat_encodes(seg.records@));
        }
        self.segments.push(seg);
        proof {
            let oldsegs = old(self).segments@;
            let newsegs = self.segments@;
            let last = oldsegs.len() - 1;
            assert(newsegs.drop_last() =~= oldsegs.drop_last());
            assert(self.records() =~= old(self).records().push(cmd@));
            assert forall|i: int| 0 <= i < newsegs.len() implies (#[trigger] newsegs[i]).wf() by {
                if i < last {
                    assert(newsegs[i] == oldsegs[i]);
                }
            }
            assert(newsegs.last().data@.subrange(
                offset as int,
                offset as int + length as int,
            ) =~= spec_encode(cmd@));
            assert(final(self).valid_ptr(p, cmd@));
            assert forall|q: LogPointer, c: CommandView| old(self).valid_ptr(q, c) implies final(self).valid_ptr(q, c) by {
                let i = choose|i: int|
                    0 <= i < oldsegs.len() && (#[trigger] oldsegs[i]).id == q.segment_id
                        && q.offset + q.length <= oldsegs[i].data@.len()
                        && oldsegs[i].data@.subrange(
                        q.offset as int,
                        q.offset as int + q.length as int,
                    ) == spec_encode(c) && wf_command(c);
                if i < last {
                    assert(newsegs[i] == oldsegs[i]);
                } else {
                    assert(newsegs[i].data@.subrange(
                        q.offset as int,
                        q.offset as int + q.length as int,
                    ) =~= oldsegs[i].data@.subrange(
                        q.offset as int,
                        q.offset as int + q.length as int,
                    ));
                }
                assert(0 <= i < newsegs.len() && newsegs[i].id == q.segment_id && q.offset
                    + q.length <= newsegs[i].data@.len() && newsegs[i].data@.subrange(
                    q.offset as int,
                    q.offset as int + q.length as int,
                ) == spec_encode(c) && wf_command(c));
            }
        }
        p
    }

    /// Reads back the one record that `p` names: `DanglingPointer` when no
    /// segment has that id (it was retired), `CorruptRecord` when no
    /// record decodes at exactly the pointed range.
    pub fn read_at(&self, p: LogPointer) -> (r: Result<Command, KvsError>)
        requires
            self.wf(),
        ensures
            forall|c: CommandView|
                self.valid_ptr(p, c) ==> match r {
                    Ok(cmd) => cmd@ == c,
                    Err(_) => false,
                },
            r matches Err(e) ==> (e == KvsError::DanglingPointer || e == KvsError::CorruptRecord),
            (forall|i: int|
                0 <= i < self.segments@.len() ==> (#[trigger] self.segments@[i]).id
                    != p.segment_id) ==> r == Err::<Command, KvsError>(KvsError::DanglingPointer),
    {
        let n = self.segments.len();
        let mut i: usize = 0;
        while i < n
            invariant
                i <= n,
                n == self.segments@.len(),
                self.wf(),
                forall|j: int| 0 <= j < i ==> (#[trigger] self.segments@[j]).id != p.segment_id,
            decreases n - i,
        {
            if self.segments[i].id == p.segment_id {
                let seg = &self.segments[i];
                proof {
                    assert forall|c: CommandView| self.valid_ptr(p, c) implies {
                        &&& p.offset + p.length <= seg.data@.len()
                        &&& seg.data@.subrange(p.offset as int, p.offset as int + p.length as int)
                            == spec_encode(c)
                        &&& wf_command(c)
                    } by {
                        let k = choose|k: int|
                            0 <= k < self.segments@.len() && (#[trigger] self.segments@[k]).id
                                == p.segment_id && p.offset + p.length
                                <= self.segments@[k].data@.len()
                                && self.segments@[k].data@.subrange(
                                p.offset as int,
                                p.offset as int + p.length as int,
                            ) == spec_encode(c) && wf_command(c);
                        assert(k == i);
                    }
                }
                if p.offset > seg.data.len() || seg.data.len() - p.offset < p.length {
                    return Err(KvsError::CorruptRecord);
                }
                let dec = decode_one(&seg.data, p.offset);
                proof {
                    assert forall|c: CommandView| self.valid_ptr(p, c) implies spec_decode(
                        seg.data@.skip(p.offset as int),
                    ) == Some((c, p.length as int)) by {
                        lemma_decode_of_encode(c, seg.data@.skip(p.offset as int + p.length as int));
                        assert(seg.data@.skip(p.offset as int) =~= spec_encode(c)
                            + seg.data@.skip(p.offset as int + p.length as int));
                        assert(spec_encode(c).len() == p.length);
                    }
                }
                match dec {
                    Ok(pair) => {
                        let (cmd, len) = pair;
                        if len == p.length {
                            return Ok(cmd);
                        } else {
                            return Err(KvsError::CorruptRecord);
                        }
                    },
                    Err(_) => {
                        return Err(KvsError::CorruptRecord);
                    },
                }
            }
            i += 1;
        }
        proof {
            assert forall|c: CommandView| self.valid_ptr(p, c) implies false by {
                let k = choose|k: int|
                    0 <= k < self.segments@.len() && (#[trigger] self.segments@[k]).id
                        == p.segment_id && p.offset + p.length <= self.segments@[k].data@.len()
                        && self.segments@[k].data@.subrange(
                        p.offset as int,
                        p.offset as int + p.length as int,
                    ) == spec_encode(c) && wf_command(c);
            }
        }
        Err(KvsError::DanglingPointer)
    }

    /// Replays every record: all segments in ascending id order, each
    /// decoded front to back.  Yields each record with its exact pointer,
    /// in replay order; the log itself is untouched, so a second call
    /// yields the same sequence.
    pub fn replay_all(&self) -> (out: Vec<(Command, LogPointer)>)
        requires
            self.wf(),
        ensures
            out@.len() == self.records().len(),
            forall|k: int|
                0 <= k < out@.len() ==> (#[trigger] out@[k]).0@ == self.records()[k]
                    && self.valid_ptr(out@[k].1, out@[k].0@),
    {
        let mut out: Vec<(Command, LogPointer)> = Vec::new();
        let nsegs = self.segments.len();
        let mut i: usize = 0;
        proof {
            assert(self.segments@.take(0).len() == 0);
            assert(seg_records(self.segments@.take(0)).len() == 0);
        }
        while i < nsegs
            invariant
                self.wf(),
                i <= nsegs,
                nsegs == self.segments@.len(),
                out@.len() == seg_records(self.segments@.take(i as int)).len(),
                forall|k: int|
                    0 <= k < out@.len() ==> (#[trigger] out@[k]).0@ == seg_records(
                        self.segments@.take(i as int),
                    )[k] && self.valid_ptr(out@[k].1, out@[k].0@),
            decreases nsegs - i,
        {
            let ghost pre = seg_records(self.segments@.take(i as int));
            let ghost rs = self.segments@[i as int].records@;
            let ghost d = self.segments@[i as int].data@;
            let sid = self.segments[i].id;
            let dlen = self.segments[i].data.len();
            let mut pos: usize = 0;
            let ghost mut j: int = 0;
            proof {
                assert(self.segments@[i as int].wf());
                assert(d.skip(0) =~= d);
                assert(rs.skip(0) =~= rs);
                assert(pre + rs.take(0) =~= pre);
            }
            while pos < dlen
                invariant
                    self.wf(),
                    i < nsegs,
                    nsegs == self.segments@.len(),
                    0 <= j <= rs.len(),
                    pos <= dlen,
                    rs == self.segments@[i as int].records@,
                    d == self.segments@[i as int].data@,
                    dlen == d.len(),
                    sid == self.segments@[i as int].id,
                    forall|m: int| 0 <= m < rs.len() ==> wf_command(#[trigger] rs[m]),
                    d.skip(pos as int) == concat_encodes(rs.skip(j)),
                    out@.len() == pre.len() + j,
                    forall|k: int|
                        0 <= k < out@.len() ==> (#[trigger] out@[k]).0@ == (pre + rs.take(j))[k]
                            && self.valid_ptr(out@[k].1, out@[k].0@),
                decreases dlen - pos,
            {
                proof {
                    if j == rs.len() {
                        assert(rs.skip(j).len() == 0);
                        assert(concat_encodes(rs.skip(j)).len() == 0);
                        assert(false);
                    }
                    lemma_concat_encodes_first(rs.skip(j));
                    assert(rs.skip(j).first() == rs[j]);
                    assert(rs.skip(j).drop_first() =~= rs.skip(j + 1));
                    lemma_decode_of_encode(rs[j], concat_encodes(rs.skip(j + 1)));
                    assert(d.skip(pos as int) == spec_encode(rs[j]) + concat_encodes(
                        rs.skip(j + 1),
                    ));
                }
                let dec = decode_one(&self.segments[i].data, pos);
                let pair = match dec {
                    Ok(p) => p,
                    Err(_) => {
                        proof {
                            assert(false);
                        }
                        vstd::pervasive::unreached()
                    },
                };
                let (cmd, n) = pair;
                let ptr = LogPointer { segment_id: sid, offset: pos, length: n };
                proof {
                    assert(cmd@ == rs[j]);
                    assert(d.subrange(pos as int, pos as int + n as int) =~= spec_encode(rs[j]));
                    assert(self.valid_ptr(ptr, cmd@));
                }
                let ghost preout = out@;
                out.push((cmd, ptr));
                proof {
                    assert(pre + rs.take(j + 1) =~= (pre + rs.take(j)).push(rs[j]));
                    assert(d.skip(pos as int + n as int) =~= d.skip(pos as int).skip(n as int));
                    assert(d.skip(pos as int).skip(n as int) =~= concat_encodes(rs.skip(j + 1)));
                    assert forall|k: int| 0 <= k < out@.len() implies (#[trigger] out@[k]).0@ == (
                    pre + rs.take(j + 1))[k] && self.valid_ptr(out@[k].1, out@[k].0@) by {
                        if k < preout.len() {
                            assert(out@[k] == preout[k]);
                        }
                    }
                    j = j + 1;
                }
                pos = pos + n;
            }
            proof {
                if j < rs.len() {
                    lemma_concat_encodes_first(rs.skip(j));
                    lemma_encode_len(rs.skip(j).first());
                    assert(false);
                }
                assert(rs.take(j) =~= rs);
                assert(self.segments@.take(i as int + 1).drop_last() =~= self.segments@.take(
                    i as int,
                ));
                assert(self.segments@.take(i as int + 1).last() == self.segments@[i as int]);
                assert(seg_records(self.segments@.take(i as int + 1)) == pre + rs);
            }
            i += 1;
        }
        proof {
            assert(self.segments@.take(nsegs as int) =~= self.segments@);
        }
        out
    }

    /// Seals the active segment and opens a fresh, empty one under the
    /// next greater id.  No records change and no pointer is disturbed.
    pub fn roll_segment(&mut self)
        requires
            old(self).wf(),
            old(self).segments@.len() > 0,
            old(self).active_id() < u64::MAX,
        ensures
            final(self).wf(),
            final(self).segments@.len() == old(self).segments@.len() + 1,
            final(self).records() == old(self).records(),
            final(self).active_id() == old(self).active_id() + 1,
            forall|q: LogPointer, c: CommandView|
                old(self).valid_ptr(q, c) ==> final(self).valid_ptr(q, c),
    {
        let n = self.segments.len();
        let id = self.segments[n - 1].id;
        let seg = Segment { id: id + 1, data: Vec::new(), records: Ghost(Seq::empty()) };
        proof {
            assert(seg.data@ =~= concat_encodes(seg.records@));
        }
        self.segments.push(seg);
        proof {
            let oldsegs = old(self).segments@;
            let newsegs = self.segments@;
            assert(newsegs.drop_last() =~= oldsegs);
            assert(self.records() =~= old(self).records());
            assert forall|q: LogPointer, c: CommandView| old(self).valid_ptr(q, c) implies final(self).valid_ptr(q, c) by {
                let i = choose|i: int|
                    0 <= i < oldsegs.len() && (#[trigger] oldsegs[i]).id == q.segment_id
                        && q.offset + q.length <= oldsegs[i].data@.len()
                        && oldsegs[i].data@.subrange(
                        q.offset as int,
                        q.offset as int + q.length as int,
                    ) == spec_encode(c) && wf_command(c);
                assert(newsegs[i] == oldsegs[i]);
            }
        }
    }
}

/// The segments kept after retiring those whose id is listed.
pub open spec fn retain_segs(segs: Seq<Segment>, ids: Seq<u64>) -> Seq<Segment>
    decreases segs.len(),
{
    if segs.len() == 0 {
        Seq::<Segment>::empty()
    } else if ids.contains(segs.last().id) {
        retain_segs(segs.drop_last(), ids)
    } else {
        retain_segs(segs.drop_last(), ids).push(segs.last())
    }
}

/// Retiring keeps a well-formed subsequence: order, ids and contents of
/// the surviving segments are untouched.
proof fn lemma_retain_segs_wf(segs: Seq<Segment>, ids: Seq<u64>)
    requires
        forall|i: int, j: int|
            0 <= i < j < segs.len() ==> (#[trigger] segs[i]).id < (#[trigger] segs[j]).id,
        forall|i: int| 0 <= i < segs.len() ==> (#[trigger] segs[i]).wf(),
    ensures
        retain_segs(segs, ids).len() <= segs.len(),
        forall|k: int|
            0 <= k < retain_segs(segs, ids).len() ==> exists|i: int|
                0 <= i < segs.len() && #[trigger] retain_segs(segs, ids)[k] == segs[i],
        forall|a: int, b: int|
            0 <= a < b < retain_segs(segs, ids).len() ==> (#[trigger] retain_segs(segs, ids)[a]).id
                < (#[trigger] retain_segs(segs, ids)[b]).id,
        forall|k: int| 0 <= k < retain_segs(segs, ids).len() ==> (#[trigger] retain_segs(segs, ids)[k]).wf(),
    decreases segs.len(),
{
    if segs.len() > 0 {
        let dl = segs.drop_last();
        let kept = retain_segs(segs, ids);
        let kept_dl = retain_segs(dl, ids);
        assert(forall|i: int, j: int|
            0 <= i < j < dl.len() ==> (#[trigger] dl[i]).id < (#[trigger] dl[j]).id);
        assert(forall|i: int| 0 <= i < dl.len() ==> (#[trigger] dl[i]).wf());
        lemma_retain_segs_wf(dl, ids);
        assert forall|k: int| 0 <= k < kept.len() implies exists|i: int|
            0 <= i < segs.len() && #[trigger] kept[k] == segs[i] by {
            if k < kept_dl.len() {
                assert(kept[k] == kept_dl[k]);
                let i = choose|i: int| 0 <= i < dl.len() && #[trigger] kept_dl[k] == dl[i];
                assert(kept[k] == segs[i]);
            } else {
                assert(kept[k] == segs.last());
                assert(kept[k] == segs[segs.len() - 1]);
            }
        }
        assert forall|a: int, b: int| 0 <= a < b < kept.len() implies (#[trigger] kept[a]).id < (
        #[trigger] kept[b]).id by {
            if b < kept_dl.len() {
                assert(kept[a] == kept_dl[a] && kept[b] == kept_dl[b]);
            } else if b == kept_dl.len() && kept.len() > kept_dl.len() {
                assert(kept[a] == kept_dl[a]);
                let i = choose|i: int| 0 <= i < dl.len() && #[trigger] kept_dl[a] == dl[i];
                assert(kept[b] == segs.last());
                assert(dl[i].id < segs[segs.len() - 1].id);
            }
        }
        assert forall|k: int| 0 <= k < kept.len() implies (#[trigger] kept[k]).wf() by {
            if k < kept_dl.len() {
                assert(kept[k] == kept_dl[k]);
            } else {
                assert(kept[k] == segs[segs.len() - 1]);
            }
        }
    }
}

/// Whether an id is in the list.
fn contains_id(ids: &Vec<u64>, id: u64) -> (r: bool)
    ensures
        r == ids@.contains(id),
{
    let n = ids.len();
    let mut i: usize = 0;
    while i < n
        invariant
            i <= n,
            n == ids@.len(),
            forall|j: int| 0 <= j < i ==> ids@[j] != id,
        decreases n - i,
    {
        if ids[i] == id {
            return true;
        }
        i += 1;
    }
    proof {
        assert(!ids@.contains(id));
    }
    false
}

impl AppendLog {
    /// Deletes the listed sealed segments from the log.  Fails with
    /// `SegmentInUse` (and changes nothing) when the list names the
    /// active segment; surviving segments are untouched and keep their
    /// order.
    pub fn retire_segments(&mut self, ids: &Vec<u64>) -> (r: Result<(), KvsError>)
        requires
            old(self).wf(),
            old(self).segments@.len() > 0,
        ensures
            final(self).wf(),
            r matches Err(e) ==> e == KvsError::SegmentInUse && ids@.contains(
                old(self).active_id(),
            ) && *final(self) == *old(self),
            r is Ok ==> {
                &&& !ids@.contains(old(self).active_id())
                &&& final(self).segments@ == retain_segs(old(self).segments@, ids@)
                &&& final(self).segments@.len() > 0
                &&& final(self).active_id() == old(self).active_id()
            },
    {
        let n = self.segments.len();
        let active = self.segments[n - 1].id;
        if contains_id(ids, active) {
            return Err(KvsError::SegmentInUse);
        }
        let ghost orig = self.segments@;
        let mut kept: Vec<Segment> = Vec::new();
        let mut i: usize = 0;
        proof {
            assert(self.segments@ =~= orig.skip(0));
            assert(orig.take(0).len() == 0);
            assert(kept@ =~= retain_segs(orig.take(0), ids@));
        }
        while self.segments.len() > 0
            invariant
                orig.len() <= usize::MAX,
                i as int + self.segments@.len() == orig.len(),
                self.segments@ == orig.skip(i as int),
                kept@ == retain_segs(orig.take(i as int), ids@),
            decreases self.segments@.len(),
        {
            let s = self.segments.remove(0);
            proof {
                assert(s == orig[i as int]);
                assert(self.segments@ =~= orig.skip(i as int + 1));
                assert(orig.take(i as int + 1).drop_last() =~= orig.take(i as int));
                assert(orig.take(i as int + 1).last() == orig[i as int]);
            }
            if contains_id(ids, s.id) {
                proof {
                    assert(kept@ == retain_segs(orig.take(i as int + 1), ids@));
                }
            } else {
                kept.push(s);
                proof {
                    assert(kept@ == retain_segs(orig.take(i as int + 1), ids@));
                }
            }
            i += 1;
        }
        proof {
            assert(orig.take(i as int) =~= orig);
        }
        self.segments = kept;
        proof {
            lemma_retain_segs_wf(orig, ids@);
            assert(retain_segs(orig, ids@).last() == orig.last());
            assert(final(self).active_id() == old(self).active_id());
        }
        Ok(())
    }
}

/// Scans raw segment bytes: how far the well-formed records reach, and
/// (ghost) which records they are.  Bytes past the returned end are a
/// torn tail from an interrupted write.
pub fn scan_records(data: &Vec<u8>) -> (r: (usize, Ghost<Seq<CommandView>>))
    ensures
        r.0 <= data@.len(),
        data@.subrange(0, r.0 as int) == concat_encodes(r.1@),
        r.1@ == records_of(data@),
        forall|i: int| 0 <= i < r.1@.len() ==> wf_command(#[trigger] r.1@[i]),
{
    let len = data.len();
    let mut pos: usize = 0;
    let ghost mut rs: Seq<CommandView> = Seq::empty();
    proof {
        assert(data@.subrange(0, 0) =~= concat_encodes(rs));
        assert(data@.skip(0) =~= data@);
        assert(rs + records_of(data@) =~= records_of(data@));
    }
    loop
        invariant
            pos <= len,
            len == data@.len(),
            data@.subrange(0, pos as int) == concat_encodes(rs),
            records_of(data@) == rs + records_of(data@.skip(pos as int)),
            forall|i: int| 0 <= i < rs.len() ==> wf_command(#[trigger] rs[i]),
        decreases len - pos,
    {
        match decode_one(data, pos) {
            Ok(pair) => {
                let (cmd, n) = pair;
                proof {
                    let tail = data@.skip(pos as int);
                    lemma_encode_of_decode(tail);
                    assert(spec_encode(cmd@) == tail.subrange(0, n as int));
                    assert(wf_command(cmd@));
                    assert(tail.skip(n as int) =~= data@.skip(pos as int + n as int));
                    assert(records_of(tail) == seq![cmd@] + records_of(
                        data@.skip(pos as int + n as int),
                    ));
                    let rs2 = rs.push(cmd@);
                    assert(rs2.drop_last() =~= rs);
                    assert(data@.subrange(0, pos as int + n as int) =~= data@.subrange(
                        0,
                        pos as int,
                    ) + tail.subrange(0, n as int));
                    assert(data@.subrange(0, pos as int + n as int) == concat_encodes(rs2));
                    assert(rs2 + records_of(data@.skip(pos as int + n as int)) =~= rs + (seq![cmd@]
                        + records_of(data@.skip(pos as int + n as int))));
                    rs = rs2;
                }
                pos = pos + n;
            },
            Err(_) => {
                proof {
                    assert(records_of(data@.skip(pos as int)) =~= Seq::<CommandView>::empty());
                    assert(rs + records_of(data@.skip(pos as int)) =~= rs);
                }
                return (pos, Ghost(rs));
            },
        }
    }
}

} // verus!
