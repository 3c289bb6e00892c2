use std::collections::BTreeMap;

use entropyfs_store::chunk::ChunkId;
use entropyfs_store::error::{SegmentError, StoreError};
use entropyfs_store::io::{IoBackend, IoBackendKind, ReadRequest};
use entropyfs_store::record::{encode, FLAG_HAS_MATERIALIZED_LEN, HEADER_SIZE};
use entropyfs_store::root::SuperblockPair;
use entropyfs_store::segment::{
    list_segments, parse_segment_name, scan_segment, segment_file_name, SegmentWriter,
};
use entropyfs_store::superblock::Superblock;
use entropyfs_store::version::{
    RecordTag, SUPERBLOCK_SLOT_A_OFFSET, SUPERBLOCK_SLOT_B_OFFSET, SUPERBLOCK_SLOT_SIZE,
};

/// Segment files and the superblock file, in memory.
#[derive(Clone, Default)]
struct MemIo {
    segments: BTreeMap<u64, Vec<u8>>,
    superblock: Vec<u8>,
    fail: bool,
}

fn overwrite(file: &mut Vec<u8>, offset: u64, bytes: &[u8]) {
    let end = offset as usize + bytes.len();
    if file.len() < end {
        file.resize(end, 0);
    }
    file[offset as usize..end].copy_from_slice(bytes);
}

impl MemIo {
    fn file(&self, seq: u64) -> Vec<u8> {
        self.segments.get(&seq).cloned().unwrap_or_default()
    }

    fn check(&self) -> Result<(), StoreError> {
        if self.fail {
            Err(StoreError::Io("injected".to_string()))
        } else {
            Ok(())
        }
    }

    fn slot(&self, offset: u64) -> Vec<u8> {
        let at = offset as usize;
        if self.superblock.len() < at + 4096 {
            return Vec::new();
        }
        self.superblock[at..at + 4096].to_vec()
    }
}

impl IoBackend for MemIo {
    fn kind(&self) -> IoBackendKind {
        IoBackendKind::Sync
    }

    fn segment_len(&self, seq: u64) -> Result<u64, StoreError> {
        self.check()?;
        Ok(self.file(seq).len() as u64)
    }

    fn read_segment_file(&self, seq: u64) -> Result<Vec<u8>, StoreError> {
        self.check()?;
        Ok(self.file(seq))
    }

    fn write_at(&mut self, seq: u64, offset: u64, bytes: &[u8]) -> Result<(), StoreError> {
        self.check()?;
        overwrite(self.segments.entry(seq).or_default(), offset, bytes);
        Ok(())
    }

    fn truncate_segment(&mut self, seq: u64, len: u64) -> Result<(), StoreError> {
        self.check()?;
        self.segments.entry(seq).or_default().truncate(len as usize);
        Ok(())
    }

    fn sync_segment_file(&mut self, _seq: u64) -> Result<(), StoreError> {
        self.check()
    }

    fn fdatasync_segment(&mut self, _seq: u64) -> Result<(), StoreError> {
        self.check()
    }

    fn sync_segments_dir(&mut self) -> Result<(), StoreError> {
        self.check()
    }

    fn delete_segment(&mut self, seq: u64) -> Result<(), StoreError> {
        self.check()?;
        self.segments.remove(&seq);
        Ok(())
    }

    fn read_payload(&self, seq: u64, offset: u64, stored_len: u64) -> Result<Vec<u8>, StoreError> {
        self.check()?;
        let file = self.file(seq);
        let start = (offset + HEADER_SIZE) as usize;
        let end = start + stored_len as usize;
        if end > file.len() {
            return Err(StoreError::Io("short read".to_string()));
        }
        Ok(file[start..end].to_vec())
    }

    fn read_many(&self, reqs: &Vec<ReadRequest>) -> Vec<Result<Vec<u8>, StoreError>> {
        reqs.iter()
            .map(|r| self.read_payload(r.segment_seq, r.offset, r.stored_len))
            .collect()
    }

    fn write_superblock_slot(&mut self, offset: u64, slot: &[u8]) -> Result<(), StoreError> {
        self.check()?;
        overwrite(&mut self.superblock, offset, slot);
        Ok(())
    }

    fn fsync_superblock(&mut self) -> Result<(), StoreError> {
        self.check()
    }
}

fn make_records() -> Vec<Vec<u8>> {
    (0..8u32)
        .map(|i| {
            let payload = vec![i as u8; 32 + i as usize];
            encode(
                RecordTag::Data,
                FLAG_HAS_MATERIALIZED_LEN,
                Some(payload.len() as u64),
                &payload,
            )
        })
        .collect()
}

fn written(io: &mut MemIo) -> SegmentWriter {
    let mut w = SegmentWriter::open(io, 0).unwrap();
    for bytes in make_records() {
        w.append(bytes);
    }
    w.flush(io).unwrap();
    w.fdatasync(io).unwrap();
    w
}

#[test]
fn append_flush_sync_scan() {
    let mut io = MemIo::default();
    let w = written(&mut io);
    let (records, end) = scan_segment(&io.file(0), 1000).unwrap();
    assert_eq!(records.len(), 8);
    assert_eq!(end, w.durable_end());
    for rec in &records {
        let payload = io.read_payload(0, rec.offset, rec.stored_len as u64).unwrap();
        assert_eq!(payload, rec.payload);
    }
}

#[test]
fn torn_tail_ignored() {
    let mut io = MemIo::default();
    written(&mut io);
    let full_len = io.file(0).len() as u64;
    io.truncate_segment(0, full_len - 7).unwrap();
    let (records, _end) = scan_segment(&io.file(0), 1000).unwrap();
    assert!(records.len() < 8);
    let mut w2 = SegmentWriter::open(&mut io, 0).unwrap();
    assert_eq!(w2.durable_end(), scan_segment(&io.file(0), 1000).unwrap().1);
    let extra = encode(RecordTag::Data, 0, None, b"post-torn record");
    w2.append(extra);
    w2.flush(&mut io).unwrap();
    w2.fdatasync(&mut io).unwrap();
    let (records2, _) = scan_segment(&io.file(0), 1000).unwrap();
    assert!(records2.len() > records.len());
    assert_eq!(records2.last().unwrap().payload, b"post-torn record".to_vec());
}

#[test]
fn corrupt_middle_detected() {
    let mut io = MemIo::default();
    written(&mut io);
    let at = (HEADER_SIZE + 5) as usize;
    io.segments.get_mut(&0).unwrap()[at] ^= 0xFF;
    let res = scan_segment(&io.file(0), 1000);
    assert!(matches!(res, Err(SegmentError::CorruptRecord(_))));
}

#[test]
fn list_and_delete() {
    let mut io = MemIo::default();
    let mut w0 = SegmentWriter::open(&mut io, 0).unwrap();
    w0.append(encode(RecordTag::Data, 0, None, b"x"));
    w0.flush(&mut io).unwrap();
    let mut w1 = SegmentWriter::open(&mut io, 1).unwrap();
    w1.append(encode(RecordTag::Data, 0, None, b"y"));
    w1.flush(&mut io).unwrap();
    let names = |io: &MemIo| -> Vec<Vec<u8>> {
        io.segments
            .keys()
            .rev()
            .map(|s| segment_file_name(*s).into_bytes())
            .collect()
    };
    assert_eq!(list_segments(&names(&io)), vec![0, 1]);
    io.delete_segment(0).unwrap();
    assert_eq!(list_segments(&names(&io)), vec![1]);
}

#[test]
fn segment_names_round_trip() {
    for seq in [0u64, 1, 9, 10, 123456, u64::MAX] {
        let name = segment_file_name(seq);
        assert_eq!(parse_segment_name(name.as_bytes()), Some(seq));
    }
    assert_ne!(segment_file_name(1), segment_file_name(10));
    assert_eq!(parse_segment_name(b"superblock"), None);
}

#[test]
fn foreign_segment_is_malformed() {
    assert!(matches!(
        scan_segment(b"no segment at all, but long enough", 10),
        Err(SegmentError::Malformed)
    ));
}

#[test]
fn failing_transport_is_reported() {
    let mut io = MemIo::default();
    let mut w = SegmentWriter::open(&mut io, 0).unwrap();
    w.append(encode(RecordTag::Data, 0, None, b"x"));
    io.fail = true;
    let message = match io.segment_len(0) {
        Err(StoreError::Io(m)) => m,
        _ => panic!("the transport fails"),
    };
    assert_eq!(w.flush(&mut io), Err(SegmentError::Io(message.clone())));
    assert_eq!(w.durable_end(), 4);
    // Nothing is buffered any more: there is nothing to write.
    assert_eq!(w.flush(&mut io), Ok(()));
    assert!(matches!(SegmentWriter::open(&mut io, 1), Err(SegmentError::Io(m)) if m == message));
}

#[test]
fn generation_selection() {
    let sb1 = Superblock {
        generation: 1,
        root_object_id: ChunkId::of(b"root1"),
        ..Default::default()
    };
    let sb2 = Superblock {
        generation: 2,
        root_object_id: ChunkId::of(b"root2"),
        ..Default::default()
    };
    let mut io = MemIo::default();
    io.write_superblock_slot(SUPERBLOCK_SLOT_A_OFFSET, &sb1.encode()).unwrap();
    io.write_superblock_slot(SUPERBLOCK_SLOT_B_OFFSET, &sb2.encode()).unwrap();
    let pair = SuperblockPair::read(
        &io.slot(SUPERBLOCK_SLOT_A_OFFSET),
        &io.slot(SUPERBLOCK_SLOT_B_OFFSET),
    )
    .unwrap();
    let chosen = pair.choose_newest().unwrap();
    assert_eq!(chosen.generation, 2);
    assert_eq!(chosen.root_object_id, ChunkId::of(b"root2"));
}

#[test]
fn torn_slot_ignored() {
    let sb1 = Superblock {
        generation: 1,
        ..Default::default()
    };
    let mut io = MemIo::default();
    io.write_superblock_slot(SUPERBLOCK_SLOT_A_OFFSET, &sb1.encode()).unwrap();
    io.write_superblock_slot(SUPERBLOCK_SLOT_B_OFFSET, &[0xAA; SUPERBLOCK_SLOT_SIZE as usize])
        .unwrap();
    let pair = SuperblockPair::read(
        &io.slot(SUPERBLOCK_SLOT_A_OFFSET),
        &io.slot(SUPERBLOCK_SLOT_B_OFFSET),
    )
    .unwrap();
    assert!(pair.b.is_none());
    assert_eq!(pair.choose_newest().unwrap().generation, 1);
}

#[test]
fn no_valid_superblock_is_an_error() {
    let pair = SuperblockPair::read(b"", b"").unwrap();
    assert!(matches!(pair.choose_newest(), Err(StoreError::Superblock(_))));
    assert!(SuperblockPair::read(b"short", b"").is_err());
}
