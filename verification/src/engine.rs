//! The log engine: the in-memory mirror of the live log tail and the state
//! machine that decides every disk action.
//!
//! The engine itself performs no I/O.  Each mutating operation updates the
//! in-memory state and reports, through its result and its contract, what
//! the embedding code must do to the directory: which bytes to append to
//! the active segment, when to fsync, when to open the next segment, and
//! when to rewrite the active segment from the surviving frames.

use crate::codec::decode_stream;
use crate::codec::decoded_frames;
use crate::codec::encode;
use crate::codec::frame_of;
use crate::codec::lemma_decoded_frames_prefix;
use crate::codec::lemma_frame_roundtrip;
use crate::codec::rec_of;
use crate::codec::tail_offset_of;
use crate::codec::wf_frame;
use crate::codec::Rec;
use crate::codec::HEADER_SIZE;
use crate::codec::LEN_LIMIT;
use vstd::prelude::*;
use vstd::seq_lib::lemma_flatten_concat;

verus! {

/// A segment that has grown to this many bytes is closed after the append
/// that crossed the line, and the next segment becomes active.
pub const SEGMENT_SIZE: u64 = 4 * 1024 * 1024;

/// Appends are made durable in batches: once at least this many bytes have
/// been written since the last fsync, the engine asks for another one.
pub const FSYNC_BATCH_BYTES: u64 = 64 * 1024;

/// One decoded record handed back to a reader.
pub struct WalEntry {
    pub index: u64,
    pub term: u64,
    pub key: Vec<u8>,
    pub val: Vec<u8>,
}

/// What the embedding code must do after an append: the new frame is the
/// last one of `frames()`; `synced` asks for an fsync of the active
/// segment; `rotated` says the active segment is now the fresh, empty
/// segment named by the engine's new segment id.
pub struct AppendOutcome {
    pub synced: bool,
    pub rotated: bool,
}

/// The write-ahead log engine for one directory.
pub struct Wal {
    dir: String,
    entries: Vec<Vec<u8>>,
    mem_bytes: u64,
    snapshot_index: u64,
    segment_id: u64,
    size: u64,
    pending: u64,
    seg: Ghost<Seq<u8>>,
    seg_start: Ghost<int>,
}

/// Splitting a sequence of frames anywhere splits its concatenation.
pub proof fn lemma_flatten_split(fs: Seq<Seq<u8>>, k: int)
    requires
        0 <= k <= fs.len(),
    ensures
        fs.flatten() == fs.take(k).flatten() + fs.skip(k).flatten(),
{
    assert(fs.take(k) + fs.skip(k) =~= fs);
    lemma_flatten_concat(fs.take(k), fs.skip(k));
}

/// Appends then reads: after records `rs` are appended to a log whose live
/// tail holds `base` — so, by `append`'s contract, the tail holds
/// `base + rs` — reading the position `base.len() + i` yields exactly the
/// record passed to the `i`-th of those appends, as `read`'s contract
/// returns the record at the given position.
pub proof fn lemma_read_after_appends(base: Seq<Rec>, rs: Seq<Rec>, i: int)
    requires
        0 <= i < rs.len(),
    ensures
        (base + rs)[base.len() + i] == rs[i],
{
}

impl Wal {
    /// The frames of the in-memory index, oldest first.
    pub closed spec fn frames(self) -> Seq<Seq<u8>> {
        self.entries@.map_values(|f: Vec<u8>| f@)
    }

    /// The records of the in-memory index, oldest first: the live tail of
    /// the log.
    pub open spec fn records(self) -> Seq<Rec> {
        self.frames().map_values(|f: Seq<u8>| rec_of(f))
    }

    /// The directory this engine was opened on.
    pub closed spec fn spec_dir(self) -> Seq<char> {
        self.dir@
    }

    /// The id of the active segment.
    pub closed spec fn spec_segment_id(self) -> u64 {
        self.segment_id
    }

    /// The byte length of the active segment.
    pub closed spec fn spec_size(self) -> u64 {
        self.size
    }

    /// The highest log index absorbed by the last snapshot taken through
    /// this engine instance, `0` if none.
    pub closed spec fn spec_snapshot_index(self) -> u64 {
        self.snapshot_index
    }

    /// Bytes written since the last fsync the engine asked for.
    pub closed spec fn spec_pending(self) -> u64 {
        self.pending
    }

    /// Total byte length of the in-memory frames.
    pub closed spec fn spec_mem_bytes(self) -> u64 {
        self.mem_bytes
    }

    /// The bytes the active segment holds once the embedding code has
    /// carried out every disk instruction the engine has issued.
    pub closed spec fn active_segment(self) -> Seq<u8> {
        self.seg@
    }

    /// The position of the first in-memory frame that lives in the active
    /// segment; earlier frames live in earlier, closed segments.
    pub closed spec fn seg_start(self) -> int {
        self.seg_start@
    }

    /// The engine's internal invariant: every held frame is a complete,
    /// well-formed frame; the byte counter matches the frames; the active
    /// segment holds exactly the frames of the in-memory index from
    /// `seg_start` on — so the index and the segment files never drift
    /// apart; a batch is never left full.
    pub open spec fn wf(self) -> bool {
        &&& forall|i: int| 0 <= i < self.frames().len() ==> wf_frame(#[trigger] self.frames()[i])
        &&& self.spec_mem_bytes() == self.frames().flatten().len()
        &&& self.spec_size() <= self.spec_mem_bytes()
        &&& 0 <= self.seg_start() <= self.frames().len()
        &&& self.active_segment() == self.frames().skip(self.seg_start()).flatten()
        &&& self.spec_size() == self.active_segment().len()
        &&& self.spec_segment_id() >= 1
        &&& self.spec_pending() < FSYNC_BATCH_BYTES
    }

    /// Build the engine state from the bytes of the active segment, as read
    /// from disk.  Every complete frame becomes one in-memory entry; the
    /// returned offset is where the first torn or missing frame starts, and
    /// the caller must truncate the segment file to it.  The in-memory
    /// index is then exactly a prefix of the active segment on disk.
    pub fn open(dir: String, segment_id: u64, segment_bytes: &[u8]) -> (r: (Wal, usize))
        requires
            segment_id >= 1,
        ensures
            r.0.wf(),
            r.0.spec_dir() == dir@,
            r.0.spec_segment_id() == segment_id,
            r.0.spec_snapshot_index() == 0,
            r.0.spec_pending() == 0,
            r.0.frames() == decoded_frames(segment_bytes@),
            r.1 == tail_offset_of(segment_bytes@),
            r.1 <= segment_bytes@.len(),
            segment_bytes@.take(r.1 as int) == r.0.frames().flatten(),
            r.0.active_segment() == segment_bytes@.take(r.1 as int),
            r.0.seg_start() == 0,
            r.0.spec_size() == r.1,
            r.0.spec_mem_bytes() == r.1,
    {
        let (entries, tail) = decode_stream(segment_bytes);
        proof {
            lemma_decoded_frames_prefix(segment_bytes@);
        }
        let wal = Wal {
            dir,
            entries,
            mem_bytes: tail as u64,
            snapshot_index: 0,
            segment_id,
            size: tail as u64,
            pending: 0,
            seg: Ghost(segment_bytes@.take(tail as int)),
            seg_start: Ghost(0),
        };
        proof {
            assert(wal.frames().skip(0) =~= wal.frames());
        }
        (wal, tail)
    }

    /// Number of records in the in-memory index.
    pub fn count(&self) -> (r: u64)
        ensures
            r == self.records().len(),
    {
        self.entries.len() as u64
    }

    /// Same as `count`: the number of resident records, not the log index
    /// of the last record.
    pub fn last_index(&self) -> (r: u64)
        ensures
            r == self.records().len(),
    {
        self.entries.len() as u64
    }

    /// The id of the active segment.
    pub fn segment_id(&self) -> (r: u64)
        ensures
            r == self.spec_segment_id(),
    {
        self.segment_id
    }

    /// The byte length of the active segment.
    pub fn size(&self) -> (r: u64)
        ensures
            r == self.spec_size(),
    {
        self.size
    }

    /// Total byte length of the in-memory frames.
    pub fn mem_bytes(&self) -> (r: u64)
        ensures
            r == self.spec_mem_bytes(),
    {
        self.mem_bytes
    }

    /// The last-included index of the most recent snapshot taken through
    /// this instance, `0` if none was.
    pub fn snapshot_index(&self) -> (r: u64)
        ensures
            r == self.spec_snapshot_index(),
    {
        self.snapshot_index
    }

    /// The directory this engine was opened on.
    pub fn dir(&self) -> (r: &str)
        ensures
            r@ == self.spec_dir(),
    {
        self.dir.as_str()
    }

    /// Number of frames in the in-memory index.
    pub fn frame_count(&self) -> (r: usize)
        ensures
            r == self.frames().len(),
    {
        self.entries.len()
    }

    /// The bytes of the `i`-th in-memory frame, for the embedding code to
    /// write back to disk.
    pub fn frame_at(&self, i: usize) -> (r: &Vec<u8>)
        requires
            i < self.frames().len(),
        ensures
            r@ == self.frames()[i as int],
    {
        &self.entries[i]
    }

    /// Append one record.  The new frame is pushed onto the in-memory
    /// index; the outcome says whether the batch crossed the fsync line
    /// and whether the active segment reached the size threshold and was
    /// rotated out.
    pub fn append(&mut self, index: u64, term: u64, key: &[u8], val: &[u8]) -> (r: AppendOutcome)
        requires
            old(self).wf(),
            key@.len() < LEN_LIMIT,
            val@.len() < LEN_LIMIT,
            old(self).spec_mem_bytes() + HEADER_SIZE + key@.len() + val@.len() <= u64::MAX,
            old(self).spec_segment_id() < u64::MAX,
        ensures
            ({
                let rec = Rec { index, term, key: key@, val: val@ };
                let flen = HEADER_SIZE + key@.len() + val@.len();
                &&& final(self).wf()
                &&& final(self).frames() == old(self).frames().push(frame_of(rec))
                &&& final(self).records() == old(self).records().push(rec)
                &&& final(self).spec_mem_bytes() == old(self).spec_mem_bytes() + flen
                &&& r.synced == (old(self).spec_pending() + flen >= FSYNC_BATCH_BYTES)
                &&& final(self).spec_pending() == if r.synced {
                    0
                } else {
                    old(self).spec_pending() + flen
                }
                &&& r.rotated == (old(self).spec_size() + flen >= SEGMENT_SIZE)
                &&& final(self).spec_segment_id() == if r.rotated {
                    old(self).spec_segment_id() + 1
                } else {
                    old(self).spec_segment_id() as int
                }
                &&& final(self).spec_size() == if r.rotated {
                    0
                } else {
                    old(self).spec_size() + flen
                }
                &&& final(self).seg_start() == if r.rotated {
                    final(self).frames().len() as int
                } else {
                    old(self).seg_start()
                }
                &&& final(self).active_segment() == if r.rotated {
                    Seq::<u8>::empty()
                } else {
                    old(self).active_segment() + frame_of(rec)
                }
                &&& final(self).spec_snapshot_index() == old(self).spec_snapshot_index()
                &&& final(self).spec_dir() == old(self).spec_dir()
            }),
    {
        let ghost rec = Rec { index, term, key: key@, val: val@ };
        proof {
            lemma_frame_roundtrip(rec);
        }
        let frame = encode(index, term, key, val);
        let flen = frame.len() as u64;
        let new_pending = self.pending + flen;
        let synced = new_pending >= FSYNC_BATCH_BYTES;
        self.pending = if synced {
            0
        } else {
            new_pending
        };
        self.mem_bytes = self.mem_bytes + flen;
        self.size = self.size + flen;
        let rotated = self.size >= SEGMENT_SIZE;
        if rotated {
            self.segment_id = self.segment_id + 1;
            self.size = 0;
        }
        proof {
            self.frames().lemma_flatten_push(frame@);
        }
        let ghost old_frames = self.frames();
        self.entries.push(frame);
        if rotated {
            self.seg = Ghost(Seq::empty());
            self.seg_start = Ghost(self.entries@.len() as int);
        } else {
            self.seg = Ghost(self.seg@ + frame_of(rec));
        }
        proof {
            assert(self.frames() =~= old_frames.push(frame_of(rec)));
            assert(self.records() =~= old(self).records().push(rec));
            assert forall|i: int| 0 <= i < self.frames().len() implies wf_frame(
                #[trigger] self.frames()[i],
            ) by {
                if i < old_frames.len() {
                    assert(self.frames()[i] == old_frames[i]);
                }
            }
            if rotated {
                assert(self.frames().skip(self.frames().len() as int)
                    =~= Seq::<Seq<u8>>::empty());
                assert(Seq::<Seq<u8>>::empty().flatten() =~= Seq::<u8>::empty());
            } else {
                let k = old(self).seg_start();
                assert(self.frames().skip(k) =~= old_frames.skip(k).push(frame_of(rec)));
                old_frames.skip(k).lemma_flatten_push(frame_of(rec));
            }
        }
        AppendOutcome { synced, rotated }
    }

    /// Read the record at 0-based position `pos` of the in-memory index,
    /// or nothing if `pos` is past the end.
    pub fn read(&self, pos: u64) -> (r: Option<WalEntry>)
        requires
            self.wf(),
        ensures
            pos < self.records().len() ==> r is Some,
            pos >= self.records().len() ==> r is None,
            r matches Some(e) ==> {
                let rec = self.records()[pos as int];
                &&& pos < self.records().len()
                &&& e.index == rec.index
                &&& e.term == rec.term
                &&& e.key@ == rec.key
                &&& e.val@ == rec.val
            },
    {
        if pos >= self.entries.len() as u64 {
            return None;
        }
        let frame: &Vec<u8> = &self.entries[pos as usize];
        proof {
            assert(wf_frame(self.frames()[pos as int]));
            assert(frame@ == self.frames()[pos as int]);
        }
        let index = crate::codec::read_u64_at(frame.as_slice(), 0);
        let term = crate::codec::read_u64_at(frame.as_slice(), 8);
        let klen = crate::codec::read_u32_at(frame.as_slice(), 16) as usize;
        let vlen = crate::codec::read_u32_at(frame.as_slice(), 20) as usize;
        let flen = frame.len();
        proof {
            assert(klen == crate::codec::key_len_of(frame@));
            assert(vlen == crate::codec::val_len_of(frame@));
            assert(HEADER_SIZE + klen + vlen == flen);
        }
        let key = vstd::slice::slice_to_vec(
            vstd::slice::slice_subrange(frame.as_slice(), HEADER_SIZE, HEADER_SIZE + klen),
        );
        let val = vstd::slice::slice_to_vec(
            vstd::slice::slice_subrange(
                frame.as_slice(),
                HEADER_SIZE + klen,
                HEADER_SIZE + klen + vlen,
            ),
        );
        proof {
            assert(self.records()[pos as int] == rec_of(frame@));
        }
        Some(WalEntry { index, term, key, val })
    }

    /// Drop every record at position `pos` and beyond from the in-memory
    /// index.  When anything was dropped the result is `true` and the
    /// caller must rewrite the active segment from the surviving frames
    /// (`frame_at`) and flush it; the engine's segment size is already the
    /// rewritten length.  When `pos` is at or past the end nothing changes
    /// and the result is `false`.
    pub fn truncate_from(&mut self, pos: u64) -> (r: bool)
        requires
            old(self).wf(),
        ensures
            final(self).wf(),
            r == (pos < old(self).records().len()),
            !r ==> *final(self) == *old(self),
            r ==> final(self).frames() == old(self).frames().take(pos as int),
            final(self).records() == old(self).records().take(
                if pos < old(self).records().len() {
                    pos as int
                } else {
                    old(self).records().len() as int
                },
            ),
            r ==> final(self).spec_size() == final(self).spec_mem_bytes(),
            r ==> final(self).spec_pending() == 0,
            r ==> final(self).active_segment() == final(self).frames().flatten(),
            r ==> final(self).seg_start() == 0,
            final(self).spec_segment_id() == old(self).spec_segment_id(),
            final(self).spec_snapshot_index() == old(self).spec_snapshot_index(),
            final(self).spec_dir() == old(self).spec_dir(),
    {
        if pos >= self.entries.len() as u64 {
            proof {
                assert(old(self).records().take(old(self).records().len() as int) =~= old(
                    self,
                ).records());
            }
            return false;
        }
        let p = pos as usize;
        self.entries.truncate(p);
        proof {
            assert(self.frames() =~= old(self).frames().take(pos as int));
            assert(self.records() =~= old(self).records().take(pos as int));
            lemma_flatten_split(old(self).frames(), pos as int);
            assert forall|i: int| 0 <= i < self.frames().len() implies wf_frame(
                #[trigger] self.frames()[i],
            ) by {
                assert(self.frames()[i] == old(self).frames()[i]);
            }
        }
        let total = self.sum_frame_lens();
        self.mem_bytes = total;
        self.size = total;
        self.pending = 0;
        self.seg = Ghost(self.frames().flatten());
        self.seg_start = Ghost(0);
        proof {
            assert(self.frames().skip(0) =~= self.frames());
        }
        true
    }

    /// Take a snapshot: record `last_index` as the snapshot's last
    /// included log index and drop the first `last_index` records from the
    /// in-memory index when `0 < last_index <= count`.  The snapshot blob
    /// is returned unchanged for the caller to persist atomically (write
    /// to a temporary file, fsync, rename); the caller must then rewrite
    /// the active segment from the surviving frames (`frame_at`) and
    /// flush it.
    pub fn create_snapshot(&mut self, data: Vec<u8>, last_index: u64) -> (r: Vec<u8>)
        requires
            old(self).wf(),
        ensures
            final(self).wf(),
            r@ == data@,
            final(self).spec_snapshot_index() == last_index,
            ({
                let dropped = if 0 < last_index && last_index <= old(self).records().len() {
                    last_index as int
                } else {
                    0
                };
                &&& final(self).frames() == old(self).frames().skip(dropped)
                &&& final(self).records() == old(self).records().skip(dropped)
            }),
            final(self).spec_size() == final(self).spec_mem_bytes(),
            final(self).spec_pending() == 0,
            final(self).active_segment() == final(self).frames().flatten(),
            final(self).seg_start() == 0,
            final(self).spec_segment_id() == old(self).spec_segment_id(),
            final(self).spec_dir() == old(self).spec_dir(),
    {
        self.snapshot_index = last_index;
        let len = self.entries.len() as u64;
        let ghost dropped = if 0 < last_index && last_index <= old(self).records().len() {
            last_index as int
        } else {
            0
        };
        if 0 < last_index && last_index <= len {
            let n = last_index as usize;
            let mut j: usize = 0;
            proof {
                assert(self.entries@ =~= old(self).entries@.skip(0));
            }
            while j < n
                invariant
                    j <= n,
                    n <= old(self).entries@.len(),
                    self.entries@ == old(self).entries@.skip(j as int),
                    self.segment_id == old(self).segment_id,
                    self.dir == old(self).dir,
                    self.snapshot_index == last_index,
                decreases n - j,
            {
                self.entries.remove(0);
                proof {
                    assert(self.entries@ =~= old(self).entries@.skip(j + 1));
                }
                j = j + 1;
            }
        }
        proof {
            assert(self.entries@ == old(self).entries@.skip(dropped));
            assert(self.frames() =~= old(self).frames().skip(dropped));
            assert(self.records() =~= old(self).records().skip(dropped));
            lemma_flatten_split(old(self).frames(), dropped);
            assert forall|i: int| 0 <= i < self.frames().len() implies wf_frame(
                #[trigger] self.frames()[i],
            ) by {
                assert(self.frames()[i] == old(self).frames()[i + dropped]);
            }
        }
        let total = self.sum_frame_lens();
        self.mem_bytes = total;
        self.size = total;
        self.pending = 0;
        self.seg = Ghost(self.frames().flatten());
        self.seg_start = Ghost(0);
        proof {
            assert(self.frames().skip(0) =~= self.frames());
        }
        data
    }

    /// Recompute the total byte length of the in-memory frames.
    fn sum_frame_lens(&self) -> (r: u64)
        requires
            self.frames().flatten().len() <= u64::MAX,
        ensures
            r == self.frames().flatten().len(),
    {
        let n = self.entries.len();
        let mut total: u64 = 0;
        let mut i: usize = 0;
        proof {
            assert(self.frames().take(0).flatten() =~= Seq::<u8>::empty());
        }
        while i < n
            invariant
                i <= n,
                n == self.frames().len(),
                total == self.frames().take(i as int).flatten().len(),
                self.frames().flatten().len() <= u64::MAX,
            decreases n - i,
        {
            proof {
                let fs = self.frames();
                lemma_flatten_split(fs, i as int);
                assert(fs.skip(i as int).first() == fs[i as int]);
                assert(fs.skip(i as int).drop_first() =~= fs.skip(i + 1));
                assert(fs.skip(i as int).flatten() == fs[i as int] + fs.skip(i + 1).flatten());
                assert(fs.take(i + 1) =~= fs.take(i as int).push(fs[i as int]));
                fs.take(i as int).lemma_flatten_push(fs[i as int]);
                assert(fs.take(i + 1).flatten().len() == fs.take(i as int).flatten().len()
                    + fs[i as int].len());
                assert(fs.take(i as int).flatten().len() + fs[i as int].len() <= fs.flatten().len());
            }
            total = total + self.entries[i].len() as u64;
            i = i + 1;
        }
        proof {
            assert(self.frames().take(n as int) =~= self.frames());
        }
        total
    }
}

} // verus!
