use wal::Wal;

const SEGMENT_SIZE: u64 = 4 * 1024 * 1024;

/// A tiny in-memory stand-in for the segment directory: one byte buffer
/// per segment file, the last being the active one.
struct SimDisk {
    segments: Vec<Vec<u8>>,
}

impl SimDisk {
    fn new() -> SimDisk {
        SimDisk { segments: vec![Vec::new()] }
    }

    /// Perform the disk half of one append, as the embedding code would:
    /// write the new frame into the active segment, then open the next
    /// segment if the engine rotated.
    fn apply_append(&mut self, wal: &Wal, rotated: bool) {
        let frame = wal.frame_at(wal.frame_count() - 1);
        self.segments.last_mut().unwrap().extend(frame.iter());
        if rotated {
            self.segments.push(Vec::new());
        }
    }

    /// Perform the disk half of a rewrite: replace the active segment's
    /// contents with the surviving frames.
    fn apply_rewrite(&mut self, wal: &Wal) {
        let active = self.segments.last_mut().unwrap();
        active.clear();
        for i in 0..wal.frame_count() {
            active.extend(wal.frame_at(i).iter());
        }
    }

    fn active(&self) -> &Vec<u8> {
        self.segments.last().unwrap()
    }
}

fn append(wal: &mut Wal, disk: &mut SimDisk, index: u64, term: u64, key: &[u8], val: &[u8]) -> bool {
    let out = wal.append(index, term, key, val);
    disk.apply_append(wal, out.rotated);
    out.rotated
}

#[test]
fn two_appends_then_reads() {
    let (mut wal, tail) = Wal::open("d".to_string(), 1, &[]);
    assert_eq!(tail, 0);
    let mut disk = SimDisk::new();
    append(&mut wal, &mut disk, 1, 1, b"k1", b"v1");
    append(&mut wal, &mut disk, 2, 1, b"k2", b"v2");
    assert_eq!(wal.count(), 2);
    let e0 = wal.read(0).unwrap();
    assert_eq!(e0.index, 1);
    assert_eq!(e0.term, 1);
    assert_eq!(e0.key, b"k1".to_vec());
    assert_eq!(e0.val, b"v1".to_vec());
    let e1 = wal.read(1).unwrap();
    assert_eq!(e1.index, 2);
    assert_eq!(e1.term, 1);
    assert_eq!(e1.key, b"k2".to_vec());
    assert_eq!(e1.val, b"v2".to_vec());
    assert!(wal.read(2).is_none());
}

#[test]
fn empty_key_and_val_accepted() {
    let (mut wal, _) = Wal::open("d".to_string(), 1, &[]);
    let mut disk = SimDisk::new();
    append(&mut wal, &mut disk, 1, 1, b"", b"");
    assert_eq!(wal.count(), 1);
    let e = wal.read(0).unwrap();
    assert_eq!(e.index, 1);
    assert_eq!(e.term, 1);
    assert!(e.key.is_empty());
    assert!(e.val.is_empty());
}

#[test]
fn torn_tail_repaired_on_reopen() {
    let (mut wal, _) = Wal::open("d".to_string(), 1, &[]);
    let mut disk = SimDisk::new();
    append(&mut wal, &mut disk, 1, 1, b"k1", b"v1");
    append(&mut wal, &mut disk, 2, 1, b"k2", b"v2");
    // A crash mid-write leaves the second frame one byte short.
    let mut torn = disk.active().clone();
    torn.pop();
    let (wal2, tail) = Wal::open("d".to_string(), 1, &torn);
    // The torn frame is silently dropped; the tail offset tells the
    // caller to truncate the file back to the last complete frame.
    assert_eq!(wal2.count(), 1);
    assert_eq!(wal2.read(0).unwrap().index, 1);
    assert!(tail < torn.len());
    assert_eq!(tail, torn.len() + 1 - (24 + 4));
    // After that truncation a further reopen is clean.
    let (wal3, tail3) = Wal::open("d".to_string(), 1, &torn[..tail]);
    assert_eq!(wal3.count(), 1);
    assert_eq!(tail3, tail);
}

#[test]
fn reopen_reads_identical() {
    let (mut wal, _) = Wal::open("d".to_string(), 1, &[]);
    let mut disk = SimDisk::new();
    append(&mut wal, &mut disk, 1, 1, b"k1", b"v1");
    append(&mut wal, &mut disk, 2, 1, b"k2", b"v2");
    let (wal2, tail) = Wal::open("d".to_string(), 1, disk.active());
    assert_eq!(tail, disk.active().len());
    assert_eq!(wal2.count(), 2);
    for pos in 0..2u64 {
        let a = wal.read(pos).unwrap();
        let b = wal2.read(pos).unwrap();
        assert_eq!(a.index, b.index);
        assert_eq!(a.term, b.term);
        assert_eq!(a.key, b.key);
        assert_eq!(a.val, b.val);
    }
}

#[test]
fn reopen_after_n_appends_counts_n() {
    let (mut wal, _) = Wal::open("d".to_string(), 1, &[]);
    let mut disk = SimDisk::new();
    let n = 25u64;
    for i in 0..n {
        let key = format!("key{}", i);
        let val = format!("val{}", i);
        append(&mut wal, &mut disk, i + 1, 1, key.as_bytes(), val.as_bytes());
    }
    let (wal2, _) = Wal::open("d".to_string(), 1, disk.active());
    assert_eq!(wal2.count(), n);
    for i in 0..n {
        let e = wal2.read(i).unwrap();
        assert_eq!(e.index, i + 1);
        assert_eq!(e.key, format!("key{}", i).into_bytes());
        assert_eq!(e.val, format!("val{}", i).into_bytes());
    }
}

#[test]
fn truncate_drops_suffix() {
    let (mut wal, _) = Wal::open("d".to_string(), 1, &[]);
    let mut disk = SimDisk::new();
    for i in 0..5u64 {
        append(&mut wal, &mut disk, i + 1, 1, b"k", format!("v{}", i).as_bytes());
    }
    let rewrite = wal.truncate_from(3);
    assert!(rewrite);
    disk.apply_rewrite(&wal);
    assert_eq!(wal.count(), 3);
    for i in 0..3u64 {
        let e = wal.read(i).unwrap();
        assert_eq!(e.index, i + 1);
        assert_eq!(e.val, format!("v{}", i).into_bytes());
    }
    assert!(wal.read(3).is_none());
    // The rewritten active segment holds exactly the survivors.
    let (wal2, _) = Wal::open("d".to_string(), 1, disk.active());
    assert_eq!(wal2.count(), 3);
}

#[test]
fn truncate_past_end_is_noop() {
    let (mut wal, _) = Wal::open("d".to_string(), 1, &[]);
    let mut disk = SimDisk::new();
    append(&mut wal, &mut disk, 1, 1, b"a", b"1");
    append(&mut wal, &mut disk, 2, 1, b"b", b"2");
    assert!(!wal.truncate_from(2));
    assert!(!wal.truncate_from(100));
    assert_eq!(wal.count(), 2);
    let e = wal.read(1).unwrap();
    assert_eq!(e.index, 2);
}

#[test]
fn snapshot_compacts_prefix() {
    let (mut wal, _) = Wal::open("d".to_string(), 1, &[]);
    let mut disk = SimDisk::new();
    for i in 1..=10u64 {
        append(&mut wal, &mut disk, i, 1, b"k", format!("v{}", i).as_bytes());
    }
    let before = wal.count();
    let blob = wal.create_snapshot(b"STATE".to_vec(), 4);
    disk.apply_rewrite(&wal);
    assert_eq!(blob, b"STATE".to_vec());
    assert_eq!(wal.snapshot_index(), 4);
    assert_eq!(wal.count(), before - 4);
    assert_eq!(wal.count(), 6);
    let e = wal.read(0).unwrap();
    assert_eq!(e.index, 5);
    assert_eq!(e.val, b"v5".to_vec());
    // load_snapshot pairs the persisted blob with the recorded index.
    assert_eq!((blob, wal.snapshot_index()), (b"STATE".to_vec(), 4));
}

#[test]
fn snapshot_of_whole_log_empties_index() {
    let (mut wal, _) = Wal::open("d".to_string(), 1, &[]);
    let mut disk = SimDisk::new();
    for i in 1..=3u64 {
        append(&mut wal, &mut disk, i, 1, b"k", b"v");
    }
    wal.create_snapshot(b"all".to_vec(), 3);
    disk.apply_rewrite(&wal);
    assert_eq!(wal.count(), 0);
    assert!(wal.read(0).is_none());
    assert!(disk.active().is_empty());
}

#[test]
fn snapshot_beyond_count_drops_nothing() {
    let (mut wal, _) = Wal::open("d".to_string(), 1, &[]);
    let mut disk = SimDisk::new();
    for i in 1..=3u64 {
        append(&mut wal, &mut disk, i, 1, b"k", b"v");
    }
    wal.create_snapshot(b"s".to_vec(), 9);
    disk.apply_rewrite(&wal);
    assert_eq!(wal.snapshot_index(), 9);
    assert_eq!(wal.count(), 3);
    assert_eq!(wal.read(0).unwrap().index, 1);
}

#[test]
fn count_and_last_index_agree() {
    let (mut wal, _) = Wal::open("d".to_string(), 1, &[]);
    let mut disk = SimDisk::new();
    assert_eq!(wal.count(), 0);
    assert_eq!(wal.last_index(), 0);
    for i in 1..=4u64 {
        append(&mut wal, &mut disk, i, 1, b"k", b"v");
        assert_eq!(wal.count(), i);
        assert_eq!(wal.last_index(), i);
    }
}

#[test]
fn rotation_at_threshold() {
    let (mut wal, _) = Wal::open("d".to_string(), 1, &[]);
    let mut disk = SimDisk::new();
    let val = vec![7u8; 1024 * 1024];
    // Frames of ~1 MiB: the fourth append crosses 4 MiB and rotates.
    assert!(!append(&mut wal, &mut disk, 1, 1, b"k", &val));
    assert!(!append(&mut wal, &mut disk, 2, 1, b"k", &val));
    assert!(!append(&mut wal, &mut disk, 3, 1, b"k", &val));
    assert_eq!(wal.segment_id(), 1);
    assert!(append(&mut wal, &mut disk, 4, 1, b"k", &val));
    assert_eq!(wal.segment_id(), 2);
    assert_eq!(wal.size(), 0);
    // The next append lands in segment 2.
    assert!(!append(&mut wal, &mut disk, 5, 1, b"k", &val));
    assert_eq!(wal.segment_id(), 2);
    assert_eq!(disk.segments.len(), 2);
    // On reopen, segment 2 is the active segment and holds record 5 only.
    let (wal2, _) = Wal::open("d".to_string(), 2, disk.active());
    assert_eq!(wal2.count(), 1);
    assert_eq!(wal2.read(0).unwrap().index, 5);
}

#[test]
fn big_value_written_whole_then_rotates() {
    let (mut wal, _) = Wal::open("d".to_string(), 1, &[]);
    let mut disk = SimDisk::new();
    let val = vec![9u8; 5 * 1024 * 1024];
    let rotated = append(&mut wal, &mut disk, 1, 1, b"big", &val);
    // The frame exceeds the segment threshold on its own: it is written
    // entirely into segment 1, and rotation happens after it completes.
    assert!(rotated);
    assert_eq!(wal.segment_id(), 2);
    assert_eq!(wal.frame_at(0).len(), 24 + 3 + 5 * 1024 * 1024);
    assert_eq!(disk.segments[0].len(), 24 + 3 + 5 * 1024 * 1024);
    assert!(disk.active().is_empty());
}

#[test]
fn fsync_batches_at_64k() {
    let (mut wal, _) = Wal::open("d".to_string(), 1, &[]);
    let mut disk = SimDisk::new();
    // Each frame is 24 + 40960 bytes; the second one crosses 64 KiB.
    let val = vec![1u8; 40960];
    let out1 = wal.append(1, 1, b"", &val);
    disk.apply_append(&wal, out1.rotated);
    assert!(!out1.synced);
    let out2 = wal.append(2, 1, b"", &val);
    disk.apply_append(&wal, out2.rotated);
    assert!(out2.synced);
    // The counter restarts after a sync.
    let out3 = wal.append(3, 1, b"", &val);
    disk.apply_append(&wal, out3.rotated);
    assert!(!out3.synced);
}

#[test]
fn many_records_rotate_and_reopen_indexes_last_segment() {
    let (mut wal, _) = Wal::open("d".to_string(), 1, &[]);
    let mut disk = SimDisk::new();
    let key = [b'k'; 50];
    let val = [b'v'; 50];
    let n = 100_000u64;
    let mut per_segment = vec![0u64];
    for i in 0..n {
        let rotated = append(&mut wal, &mut disk, i + 1, 1, &key, &val);
        *per_segment.last_mut().unwrap() += 1;
        if rotated {
            per_segment.push(0);
        }
    }
    // 124-byte frames: a segment fills after 33826 of them, so 100 000
    // records span three segments, the last one active and partial.
    assert_eq!(per_segment, vec![33826, 33826, 32348]);
    assert_eq!(disk.segments.len(), 3);
    assert_eq!(wal.segment_id(), 3);
    for (i, seg) in disk.segments.iter().enumerate() {
        let name = wal::segment::segment_file_name((i + 1) as u64);
        assert_eq!(name, format!("0000000{}.log", i + 1));
        if (i as u64) < wal.segment_id() - 1 {
            assert!(seg.len() as u64 >= SEGMENT_SIZE);
        }
    }
    // Reopen: the in-memory index holds the records of the highest
    // (active) segment only.
    let (wal2, tail) = Wal::open("d".to_string(), wal.segment_id(), disk.active());
    assert_eq!(tail, disk.active().len());
    assert_eq!(wal2.count(), 32348);
    let first = wal2.read(0).unwrap();
    assert_eq!(first.index, 2 * 33826 + 1);
}
