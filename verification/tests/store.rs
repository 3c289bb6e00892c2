use std::collections::{BTreeMap, BTreeSet};

use entropyfs_store::attrs::AttrUpdate;
use entropyfs_store::chunk::ChunkId;
use entropyfs_store::commit::Space;
use entropyfs_store::descriptor::{Descriptor, Form};
use entropyfs_store::directory::DirEntry;
use entropyfs_store::dt::{DT_DIR, DT_REG};
use entropyfs_store::error::StoreError;
use entropyfs_store::extents::{ExtentUpdate, ObjectKind, ObjectRecord};
use entropyfs_store::gc::{mark_live, physical_report};
use entropyfs_store::inode::{InodeData, Timespec};
use entropyfs_store::io::{IoBackend, IoBackendKind, ReadRequest};
use entropyfs_store::namespace::{EntryKind, NewEntry};
use entropyfs_store::ratios::live_ratios;
use entropyfs_store::record::HEADER_SIZE;
use entropyfs_store::segment::scan_segment;
use entropyfs_store::store::{Store, StoreConfig};
use entropyfs_store::transaction::{CrashHooks, CrashPoint, PendingRecord};
use entropyfs_store::version::{RecordTag, SUPERBLOCK_SLOT_A_OFFSET, SUPERBLOCK_SLOT_B_OFFSET};

/// Segment files and the superblock file, in memory, and what of them is synced.
#[derive(Clone, Default)]
struct MemIo {
    segments: BTreeMap<u64, Vec<u8>>,
    superblock: Vec<u8>,
    fail: bool,
    synced: BTreeMap<u64, Vec<u8>>,
    named: BTreeSet<u64>,
    synced_superblock: Vec<u8>,
}

fn overwrite(file: &mut Vec<u8>, offset: u64, bytes: &[u8]) {
    let end = offset as usize + bytes.len();
    if file.len() < end {
        file.resize(end, 0);
    }
    file[offset as usize..end].copy_from_slice(bytes);
}

impl MemIo {
    fn file(&self, seq: u64) -> Vec<u8> {
        self.segments.get(&seq).cloned().unwrap_or_default()
    }

    /// What a loss of power leaves: the synced bytes of the files with synced entries.
    fn without_power(&self) -> MemIo {
        let segments: BTreeMap<u64, Vec<u8>> = self
            .named
            .iter()
            .map(|n| (*n, self.synced.get(n).cloned().unwrap_or_default()))
            .collect();
        MemIo {
            synced: segments.clone(),
            segments,
            superblock: self.synced_superblock.clone(),
            fail: false,
            named: self.named.clone(),
            synced_superblock: self.synced_superblock.clone(),
        }
    }

    fn check(&self) -> Result<(), StoreError> {
        if self.fail {
            Err(StoreError::Io("injected".to_string()))
        } else {
            Ok(())
        }
    }

    fn slot(&self, offset: u64) -> Vec<u8> {
        let at = offset as usize;
        if self.superblock.len() < at + 4096 {
            return Vec::new();
        }
        self.superblock[at..at + 4096].to_vec()
    }
}

impl IoBackend for MemIo {
    fn kind(&self) -> IoBackendKind {
        IoBackendKind::Sync
    }

    fn segment_len(&self, seq: u64) -> Result<u64, StoreError> {
        self.check()?;
        Ok(self.file(seq).len() as u64)
    }

    fn read_segment_file(&self, seq: u64) -> Result<Vec<u8>, StoreError> {
        self.check()?;
        Ok(self.file(seq))
    }

    fn write_at(&mut self, seq: u64, offset: u64, bytes: &[u8]) -> Result<(), StoreError> {
        self.check()?;
        overwrite(self.segments.entry(seq).or_default(), offset, bytes);
        Ok(())
    }

    fn truncate_segment(&mut self, seq: u64, len: u64) -> Result<(), StoreError> {
        self.check()?;
        self.segments.entry(seq).or_default().truncate(len as usize);
        Ok(())
    }

    fn sync_segment_file(&mut self, seq: u64) -> Result<(), StoreError> {
        self.check()?;
        self.synced.insert(seq, self.file(seq));
        Ok(())
    }

    fn fdatasync_segment(&mut self, seq: u64) -> Result<(), StoreError> {
        self.check()?;
        self.synced.insert(seq, self.file(seq));
        Ok(())
    }

    fn sync_segments_dir(&mut self) -> Result<(), StoreError> {
        self.check()?;
        self.named = self.segments.keys().copied().collect();
        Ok(())
    }

    fn delete_segment(&mut self, seq: u64) -> Result<(), StoreError> {
        self.check()?;
        self.segments.remove(&seq);
        Ok(())
    }

    fn read_payload(&self, seq: u64, offset: u64, stored_len: u64) -> Result<Vec<u8>, StoreError> {
        self.check()?;
        let file = self.file(seq);
        let start = (offset + HEADER_SIZE) as usize;
        let end = start + stored_len as usize;
        if end > file.len() {
            return Err(StoreError::Io("short read".to_string()));
        }
        Ok(file[start..end].to_vec())
    }

    fn read_many(&self, reqs: &Vec<ReadRequest>) -> Vec<Result<Vec<u8>, StoreError>> {
        reqs.iter()
            .map(|r| self.read_payload(r.segment_seq, r.offset, r.stored_len))
            .collect()
    }

    fn write_superblock_slot(&mut self, offset: u64, slot: &[u8]) -> Result<(), StoreError> {
        self.check()?;
        overwrite(&mut self.superblock, offset, slot);
        Ok(())
    }

    fn fsync_superblock(&mut self) -> Result<(), StoreError> {
        self.check()?;
        self.synced_superblock = self.superblock.clone();
        Ok(())
    }
}

const NOW: Timespec = Timespec { sec: 100, nsec: 5 };

fn config() -> StoreConfig {
    StoreConfig {
        segment_size: 1 << 20,
        max_records_per_segment: 100_000,
        max_fanout: 256,
        chunk_class: 65536,
        capacity_override: None,
        root_uid: 1,
        root_gid: 2,
        io_backend: IoBackendKind::Sync,
        io_uring_entries: 64,
    }
}

fn roomy() -> Space {
    Space { capacity: 0, used: 0, watermark: 0 }
}

fn fresh() -> Store<MemIo> {
    Store::create(MemIo::default(), &config(), [7; 16], &roomy()).unwrap()
}

/// A descriptor is its chunk's id behind a marker and its length.
fn descriptor_bytes(d: &Descriptor) -> Vec<u8> {
    let mut out = d.len.to_le_bytes().to_vec();
    if let Form::Raw { obj: object } = &d.form {
        out.extend_from_slice(object.as_slice());
    }
    out
}

fn decode(bytes: &[u8]) -> Option<Descriptor> {
    if bytes.len() != 40 {
        return None;
    }
    let mut len = [0u8; 8];
    len.copy_from_slice(&bytes[..8]);
    let mut id = [0u8; 32];
    id.copy_from_slice(&bytes[8..]);
    Some(Descriptor {
        len: u64::from_le_bytes(len),
        form: Form::Raw { obj: ChunkId { bytes: id } },
    })
}

fn raw_update(offset: u64, data: &[u8]) -> ExtentUpdate {
    let id = ChunkId::of(data);
    let descriptor = Descriptor { len: data.len() as u64, form: Form::Raw { obj: id } };
    let bytes = descriptor_bytes(&descriptor);
    ExtentUpdate {
        offset,
        descriptor,
        bytes,
        content_id: id,
        objects: vec![ObjectRecord { kind: ObjectKind::Data, payload: data.to_vec() }],
    }
}

fn reopen(io: MemIo) -> Result<Store<MemIo>, StoreError> {
    let seqs: Vec<u64> = io.segments.keys().copied().collect();
    let a = io.slot(SUPERBLOCK_SLOT_A_OFFSET);
    let b = io.slot(SUPERBLOCK_SLOT_B_OFFSET);
    Store::open(io, &config(), &seqs, &a, &b, &decode, NOW, &roomy())
}

fn file() -> NewEntry {
    NewEntry { kind: EntryKind::File, mode: 0o644, uid: 3, gid: 4 }
}

fn dir() -> NewEntry {
    NewEntry { kind: EntryKind::Directory, mode: 0o755, uid: 3, gid: 4 }
}

fn create(st: &mut Store<MemIo>, parent: u64, name: &[u8], e: &NewEntry) -> Result<u64, StoreError> {
    st.create_entry(parent, name, e, NOW, &CrashHooks::none(), &roomy())
}

#[test]
fn create_makes_a_root_directory() {
    let st = fresh();
    let root = st.current_root();
    let inode = st.get_inode(root.root_dir_ino).unwrap().unwrap();
    assert!(matches!(inode.data, InodeData::Directory { .. }));
    assert_eq!((inode.uid, inode.gid), (1, 2));
    assert_eq!(st.all_inodes().unwrap(), vec![root.root_dir_ino]);
    assert_eq!(st.resolve_path(b"/").unwrap(), Some(root.root_dir_ino));
    assert_eq!(st.get_inode(99).unwrap(), None);
}

#[test]
fn entries_are_created_looked_up_and_removed() {
    let mut st = fresh();
    let top = st.current_root().root_dir_ino;
    let before = st.generation();
    let d = create(&mut st, top, b"docs", &dir()).unwrap();
    let f = create(&mut st, d, b"a.txt", &file()).unwrap();
    assert_eq!(st.generation(), before + 2);
    assert_eq!(st.dir_lookup(top, b"docs").unwrap(), Some(DirEntry { ino: d, d_type: DT_DIR }));
    assert_eq!(st.dir_lookup(d, b"a.txt").unwrap(), Some(DirEntry { ino: f, d_type: DT_REG }));
    assert_eq!(st.dir_lookup(d, b"b.txt").unwrap(), None);
    assert_eq!(st.resolve_path(b"/docs/a.txt").unwrap(), Some(f));
    assert_eq!(st.parent_of(f).unwrap(), d);
    assert_eq!(st.get_inode(top).unwrap().unwrap().nlink, 3);
    assert!(create(&mut st, d, b"a.txt", &file()).is_err());
    assert!(create(&mut st, f, b"x", &file()).is_err());
    assert!(matches!(create(&mut st, d, b"..", &file()), Err(StoreError::Config(_))));
    let hooks = CrashHooks::none();
    assert!(st.unlink(top, b"docs", true, NOW, &hooks, &roomy()).is_err());
    assert_eq!(st.unlink(d, b"a.txt", false, NOW, &hooks, &roomy()).unwrap(), f);
    assert_eq!(st.get_inode(f).unwrap(), None);
    assert_eq!(st.unlink(top, b"docs", true, NOW, &hooks, &roomy()).unwrap(), d);
    assert_eq!(st.resolve_path(b"/docs").unwrap(), None);
}

#[test]
fn rename_and_link() {
    let mut st = fresh();
    let top = st.current_root().root_dir_ino;
    let hooks = CrashHooks::none();
    let a = create(&mut st, top, b"a", &file()).unwrap();
    let b = create(&mut st, top, b"b", &file()).unwrap();
    let out = st.rename(top, b"a", top, b"b", NOW, &hooks, &roomy()).unwrap();
    assert_eq!(out.src_ino, a);
    assert_eq!(out.replaced_dst_ino, Some(b));
    assert_eq!(st.dir_lookup(top, b"a").unwrap(), None);
    assert_eq!(st.dir_lookup(top, b"b").unwrap().unwrap().ino, a);
    assert_eq!(st.get_inode(b).unwrap(), None);
    st.link(top, b"c", a, NOW, &hooks, &roomy()).unwrap();
    assert_eq!(st.get_inode(a).unwrap().unwrap().nlink, 2);
    assert_eq!(st.dir_lookup(top, b"c").unwrap().unwrap().ino, a);
    assert!(st.link(top, b"c", a, NOW, &hooks, &roomy()).is_err());
    st.unlink(top, b"b", false, NOW, &hooks, &roomy()).unwrap();
    assert_eq!(st.get_inode(a).unwrap().unwrap().nlink, 1);
    assert!(st.rename(top, b"none", top, b"x", NOW, &hooks, &roomy()).is_err());
}

#[test]
fn attributes() {
    let mut st = fresh();
    let top = st.current_root().root_dir_ino;
    let hooks = CrashHooks::none();
    let f = create(&mut st, top, b"f", &file()).unwrap();
    let update = AttrUpdate {
        mode: Some(0o600),
        uid: Some(9),
        gid: None,
        size: None,
        atime: None,
        mtime: Some(Timespec { sec: 1, nsec: 2 }),
    };
    let v = st.setattr_inode(f, &update, None, &decode, NOW, &hooks, &roomy()).unwrap();
    assert_eq!(v.mode & 0o7777, 0o600);
    assert_eq!((v.uid, v.gid), (9, 4));
    assert_eq!(v.mtime, Timespec { sec: 1, nsec: 2 });
    assert_eq!(v.ctime, NOW);
    assert_eq!(st.get_inode(f).unwrap().unwrap(), v);
    assert!(st.setattr_inode(77, &update, None, &decode, NOW, &hooks, &roomy()).is_err());
}

#[test]
fn attributes_with_a_size() {
    let mut st = fresh();
    let top = st.current_root().root_dir_ino;
    let hooks = CrashHooks::none();
    let f = create(&mut st, top, b"f", &file()).unwrap();
    let update = AttrUpdate {
        mode: Some(0o600),
        uid: Some(7),
        size: Some(10),
        ..Default::default()
    };
    let v = st.setattr_inode(f, &update, None, &decode, NOW, &hooks, &roomy()).unwrap();
    assert_eq!(v.mode, 0o100600);
    assert_eq!(v.uid, 7);
    assert_eq!(v.size, 10);
    assert_eq!(st.get_inode(f).unwrap(), Some(v));
    let shorter = AttrUpdate { size: Some(3), ..Default::default() };
    let v = st.epoch_setattr(f, &shorter, None, &decode, NOW, &hooks, &roomy()).unwrap();
    assert_eq!((v.size, v.uid), (3, 7));
    assert_eq!(st.get_inode(f).unwrap(), Some(v));
    // A size is for files only.
    assert!(st.setattr_inode(top, &shorter, None, &decode, NOW, &hooks, &roomy()).is_err());
}

#[test]
fn a_name_renamed_onto_itself_commits_nothing() {
    let mut st = fresh();
    let top = st.current_root().root_dir_ino;
    let hooks = CrashHooks::none();
    let f = create(&mut st, top, b"f", &file()).unwrap();
    let generation = st.current_root().generation;
    let out = st.rename(top, b"f", top, b"f", NOW, &hooks, &roomy()).unwrap();
    assert_eq!((out.src_ino, out.replaced_dst_ino), (f, None));
    assert_eq!(st.current_root().generation, generation);
    assert!(st.rename(top, b"g", top, b"g", NOW, &hooks, &roomy()).is_err());
}

#[test]
fn a_full_medium_refuses_and_keeps_the_store() {
    let mut st = fresh();
    let top = st.current_root().root_dir_ino;
    let hooks = CrashHooks::none();
    let full = Space { capacity: 1000, used: 999, watermark: 1000 };
    let out = st.create_entry(top, b"f", &file(), NOW, &hooks, &full);
    assert!(matches!(out, Err(StoreError::Full(_))));
    assert_eq!(st.dir_lookup(top, b"f").unwrap(), None);
    create(&mut st, top, b"f", &file()).unwrap();
}

#[test]
fn a_long_epoch_is_closed() {
    let mut st = fresh();
    let top = st.current_root().root_dir_ino;
    let hooks = CrashHooks::none();
    let generation = st.current_root().generation;
    for i in 0..1023u64 {
        let name = format!("n{i:05}").into_bytes();
        st.epoch_create(top, &name, &file(), NOW, &hooks, &roomy()).unwrap();
    }
    assert_eq!(st.current_root().generation, generation);
    st.epoch_create(top, b"last", &file(), NOW, &hooks, &roomy()).unwrap();
    assert_eq!(st.current_root().generation, generation + 1);
    // More operations than a node of this fanout holds: all of them are in the trees.
    for i in 0..1023u64 {
        let name = format!("n{i:05}").into_bytes();
        assert!(st.dir_lookup(top, &name).unwrap().is_some());
    }
    assert!(st.dir_lookup(top, b"last").unwrap().is_some());
}

#[test]
fn extended_attributes() {
    let mut st = fresh();
    let top = st.current_root().root_dir_ino;
    let hooks = CrashHooks::none();
    st.set_xattr(top, b"user.b", b"2", NOW, &hooks, &roomy()).unwrap();
    st.set_xattr(top, b"user.a", b"1", NOW, &hooks, &roomy()).unwrap();
    st.set_xattr(top, b"user.a", b"one", NOW, &hooks, &roomy()).unwrap();
    assert_eq!(st.get_xattr(top, b"user.a", &roomy()).unwrap(), Some(b"one".to_vec()));
    assert_eq!(
        st.list_xattr(top, &roomy()).unwrap(),
        vec![b"user.a".to_vec(), b"user.b".to_vec()]
    );
    assert!(st.remove_xattr(top, b"user.a", NOW, &hooks, &roomy()).unwrap());
    assert!(!st.remove_xattr(top, b"user.a", NOW, &hooks, &roomy()).unwrap());
    assert_eq!(st.get_xattr(top, b"user.a", &roomy()).unwrap(), None);
    assert!(matches!(
        st.set_xattr(top, b"a/b", b"", NOW, &hooks, &roomy()),
        Err(StoreError::Config(_))
    ));
    assert!(matches!(
        st.set_xattr(top, b"big", &vec![0; 65537], NOW, &hooks, &roomy()),
        Err(StoreError::Limit(_))
    ));
    assert!(st.get_xattr(55, b"x", &roomy()).is_err());
}

#[test]
fn committed_state_survives_reopen() {
    let mut st = fresh();
    let top = st.current_root().root_dir_ino;
    let f = create(&mut st, top, b"f", &file()).unwrap();
    let data = vec![5u8; 3000];
    st.commit_file_extents(f, &vec![raw_update(0, &data)], Some(3000), NOW, &CrashHooks::none(), &roomy())
        .unwrap();
    let cid = ChunkId::of(&data);
    let generation = st.generation();
    assert_eq!(st.config(), config());
    assert_eq!(st.logical_bytes(&decode).unwrap(), 3000);
    let st = reopen(st.io).unwrap();
    assert_eq!(st.generation(), generation);
    assert_eq!(st.dir_lookup(top, b"f").unwrap().unwrap().ino, f);
    assert_eq!(st.get_inode(f).unwrap().unwrap().size, 3000);
    assert_eq!(st.fetch_object(&cid).unwrap(), Some(data.clone()));
    let bytes = st.chunk_descriptor(&cid).unwrap().unwrap();
    assert_eq!(decode(&bytes).unwrap().len, 3000);
    let tx = st.begin_tx();
    let plan = Store::read_plan_in_tx(&tx, f, 1000, 5000).unwrap().unwrap();
    assert_eq!((plan.from, plan.offset, plan.end), (0, 1000, 3000));
    assert_eq!(plan.extents, vec![(0, bytes)]);
    assert!(Store::read_plan_in_tx(&tx, f, 3000, 1).unwrap().is_none());
    assert!(Store::read_plan_in_tx(&tx, top, 0, 1).is_err());
    assert_eq!(Store::logical_bytes_in_tx(&tx, &decode).unwrap(), 3000);
}

#[test]
fn truncation_drops_extents() {
    let mut st = fresh();
    let top = st.current_root().root_dir_ino;
    let hooks = CrashHooks::none();
    let f = create(&mut st, top, b"f", &file()).unwrap();
    let ups = vec![raw_update(0, &[1; 100]), raw_update(100, &[2; 100])];
    st.commit_file_extents_deferred(f, &ups, Some(200), NOW, &hooks, &roomy()).unwrap();
    let cut = raw_update(0, &[1; 50]);
    assert_eq!(st.extent_descriptor(f, 0).unwrap(), Some(ups[0].bytes.clone()));
    assert_eq!(st.extent_descriptor(f, 99).unwrap(), Some(ups[0].bytes.clone()));
    assert_eq!(st.extent_descriptor(f, 150).unwrap(), Some(ups[1].bytes.clone()));
    assert!(st.extent_descriptor(top, 0).is_err());
    assert_eq!(st.trim_due(f, 50, &decode).unwrap(), Some((0, 50)));
    assert_eq!(st.trim_due(f, 100, &decode).unwrap(), None);
    // The shortened extent must be there, at its start and of its length.
    assert!(st.truncate_file(f, 50, None, &decode, NOW, &hooks, &roomy()).is_err());
    let other = raw_update(0, &[1; 49]);
    assert!(st.truncate_file(f, 50, Some(&other), &decode, NOW, &hooks, &roomy()).is_err());
    assert!(st.truncate_file(f, 100, Some(&cut), &decode, NOW, &hooks, &roomy()).is_err());
    st.truncate_file(f, 50, Some(&cut), &decode, NOW, &hooks, &roomy()).unwrap();
    assert_eq!(st.get_inode(f).unwrap().unwrap().size, 50);
    let tx = st.begin_tx();
    let plan = Store::read_plan_in_tx(&tx, f, 0, 500).unwrap().unwrap();
    assert_eq!(plan.extents.len(), 1);
    assert_eq!(decode(&plan.extents[0].1).unwrap().len, 50);
    drop(tx);
    assert!(st.truncate_file(top, 0, None, &decode, NOW, &hooks, &roomy()).is_err());
}

#[test]
fn pending_operations_are_replayed() {
    let mut st = fresh();
    let top = st.current_root().root_dir_ino;
    let hooks = CrashHooks::none();
    let generation = st.generation();
    let ino = st.epoch_create(top, b"pending", &file(), NOW, &hooks, &roomy()).unwrap();
    assert_eq!(st.epoch_pending, 1);
    assert_eq!(st.generation(), generation);
    assert_eq!(st.dir_lookup(top, b"pending").unwrap(), None);
    {
        let tx = st.begin_tx();
        let e = Store::dir_lookup_epoch(&st.epoch, &tx, top, b"pending").unwrap().unwrap();
        assert_eq!(e.ino, ino);
        assert_eq!(Store::parent_of_epoch(&st.epoch, &tx, ino).unwrap(), top);
        assert_eq!(Store::parent_of_epoch(&st.epoch, &tx, top).unwrap(), top);
    }
    let st = reopen(st.io.clone()).unwrap();
    assert_eq!(st.dir_lookup(top, b"pending").unwrap().unwrap().ino, ino);
}

#[test]
fn barrier_merges_what_is_pending() {
    let mut st = fresh();
    let top = st.current_root().root_dir_ino;
    let hooks = CrashHooks::none();
    let ino = st.epoch_create(top, b"p", &dir(), NOW, &hooks, &roomy()).unwrap();
    st.durability_barrier(&hooks, &roomy()).unwrap();
    assert_eq!(st.epoch_pending, 0);
    assert_eq!(st.dir_lookup(top, b"p").unwrap().unwrap().ino, ino);
    let generation = st.generation();
    st.durability_barrier(&hooks, &roomy()).unwrap();
    assert_eq!(st.generation(), generation);
}

#[test]
fn snapshots_are_taken_and_restored() {
    let mut st = fresh();
    let top = st.current_root().root_dir_ino;
    let hooks = CrashHooks::none();
    create(&mut st, top, b"old", &file()).unwrap();
    let root_id = st.current_root().id();
    let e = st.create_snapshot(b"s1", NOW, &hooks, &roomy()).unwrap();
    assert_eq!(e.root_id, root_id);
    assert_eq!(e.created_unix_ns, 100_000_000_005);
    create(&mut st, top, b"new", &file()).unwrap();
    assert_eq!(st.snapshot_lookup(b"s1").unwrap(), Some(e));
    assert_eq!(st.list_snapshots().unwrap(), vec![(b"s1".to_vec(), e)]);
    let generation = st.generation();
    st.restore_snapshot(b"s1", &hooks, &roomy()).unwrap();
    assert_eq!(st.generation(), generation + 1);
    assert!(st.dir_lookup(top, b"old").unwrap().is_some());
    assert_eq!(st.dir_lookup(top, b"new").unwrap(), None);
    assert_eq!(st.snapshot_lookup(b"s1").unwrap(), Some(e));
    assert!(st.delete_snapshot(b"s1", &hooks, &roomy()).unwrap());
    assert!(!st.delete_snapshot(b"s1", &hooks, &roomy()).unwrap());
    assert!(matches!(
        st.restore_snapshot(b"s1", &hooks, &roomy()),
        Err(StoreError::Invariant(_))
    ));
    assert!(matches!(
        st.create_snapshot(b"a/b", NOW, &hooks, &roomy()),
        Err(StoreError::Config(_))
    ));
}

#[test]
fn collection_keeps_what_is_reachable() {
    let mut st = fresh();
    let top = st.current_root().root_dir_ino;
    let hooks = CrashHooks::none();
    let f = create(&mut st, top, b"f", &file()).unwrap();
    let data = vec![8u8; 500];
    st.commit_file_extents(f, &vec![raw_update(0, &data)], Some(500), NOW, &hooks, &roomy())
        .unwrap();
    let gone = vec![9u8; 500];
    st.commit_file_extents(f, &vec![raw_update(0, &gone)], Some(500), NOW, &hooks, &roomy())
        .unwrap();
    st.commit_file_extents(f, &vec![raw_update(0, &data)], Some(500), NOW, &hooks, &roomy())
        .unwrap();
    let live = mark_live(&st, &decode).unwrap();
    assert!(live.contains(ChunkId::of(&data).as_slice()));
    assert!(!live.contains(ChunkId::of(&gone).as_slice()));
    let victim = st.current_segment_seq();
    let ratios = live_ratios(st.object_index(), &live, &vec![victim, 99]);
    assert_eq!(ratios[0].0, victim);
    assert!(ratios[0].1 .0 < ratios[0].1 .1);
    assert_eq!(ratios[1], (99, (0, 0)));
    let report = physical_report(&st, &vec![victim], &decode).unwrap();
    assert_eq!(report.segments.len(), 1);
    assert_eq!(report.file_bytes, st.io.file(victim).len() as u64);
    assert!(report.live_bytes > 0 && report.dead_indexed_bytes > 0);
    assert_eq!(report.unexplained(), 0);
    let freed = st.collect(&vec![victim], &decode, &hooks, &roomy()).unwrap();
    assert!(freed > 0);
    assert!(!st.io.segments.contains_key(&victim));
    assert_eq!(st.fetch_object(&ChunkId::of(&data)).unwrap(), Some(data.clone()));
    assert_eq!(st.fetch_object(&ChunkId::of(&gone)).unwrap(), None);
    assert_eq!(st.dir_lookup(top, b"f").unwrap().unwrap().ino, f);
    let st = reopen(st.io).unwrap();
    assert_eq!(st.fetch_object(&ChunkId::of(&data)).unwrap(), Some(data));
}

#[test]
fn crash_before_the_root_is_named_keeps_the_old_state() {
    let mut st = fresh();
    let top = st.current_root().root_dir_ino;
    let hooks = CrashHooks { armed: Some(CrashPoint::AfterRootWrite) };
    let r = st.create_entry(top, b"f", &file(), NOW, &hooks, &roomy());
    assert!(matches!(r, Err(StoreError::CrashSimulated(_))));
    let st = reopen(st.io).unwrap();
    assert_eq!(st.dir_lookup(top, b"f").unwrap(), None);
    assert_eq!(st.generation(), st.current_root().generation);
}

#[test]
fn full_medium_refuses_commits() {
    let mut st = fresh();
    let top = st.current_root().root_dir_ino;
    let space = Space { capacity: 1000, used: 900, watermark: 950 };
    let r = st.create_entry(top, b"f", &file(), NOW, &CrashHooks::none(), &space);
    assert!(matches!(r, Err(StoreError::Full(_))));
    assert_eq!(st.dir_lookup(top, b"f").unwrap(), None);
}

#[test]
fn failing_backend_fails_operations() {
    let mut st = fresh();
    let top = st.current_root().root_dir_ino;
    st.io.fail = true;
    assert!(create(&mut st, top, b"f", &file()).is_err());
    assert!(st.dir_lookup(top, b"f").is_err());
}

#[test]
fn directories_are_scanned_in_pages() {
    let mut st = fresh();
    let top = st.current_root().root_dir_ino;
    for name in [b"c", b"a", b"b"] {
        create(&mut st, top, name, &file()).unwrap();
    }
    let (page, more) = st.dir_scan(top, None, 2).unwrap();
    assert_eq!(page.iter().map(|e| e.0.clone()).collect::<Vec<_>>(), vec![b"a".to_vec(), b"b".to_vec()]);
    assert!(more);
    let (page, more) = st.dir_scan(top, Some(b"b"), 2).unwrap();
    assert_eq!(page.len(), 1);
    assert!(!more);
    st.dir_insert(top, b"z", DirEntry { ino: 2, d_type: DT_REG }, NOW, &CrashHooks::none(), &roomy())
        .unwrap();
    assert!(st.dir_lookup(top, b"z").unwrap().is_some());
    st.dir_remove(top, b"z", NOW, &CrashHooks::none(), &roomy()).unwrap();
    assert_eq!(st.dir_lookup(top, b"z").unwrap(), None);
}

#[test]
fn overlay_reads_hold_pending_over_committed() {
    let mut st = fresh();
    let top = st.current_root().root_dir_ino;
    let hooks = CrashHooks::none();
    let f = create(&mut st, top, b"f", &file()).unwrap();
    let old = raw_update(0, &[1; 100]);
    let old_bytes = old.bytes.clone();
    st.commit_file_extents(f, &vec![old, raw_update(200, &[4; 50])], Some(250), NOW, &hooks, &roomy())
        .unwrap();
    let ups = vec![raw_update(100, &[2; 100])];
    let new_bytes = ups[0].bytes.clone();
    st.epoch_write(f, &ups, 200, &hooks, &roomy()).unwrap();
    let tx = st.begin_tx();
    let plan = |offset: u64, len: u64| {
        Store::read_file_epoch_prepare(&st.epoch, &tx, f, offset, len, &decode).unwrap()
    };
    // A window that ends where a pending extent starts leaves it out.
    let p = plan(0, 100).unwrap();
    assert_eq!(p.extents, vec![(0, old_bytes.clone())]);
    // A window inside a pending extent is pulled back to its start.
    let p = plan(150, 10).unwrap();
    assert!(p.extents.contains(&(100, new_bytes.clone())));
    let p = plan(100, 50).unwrap();
    assert!(p.extents.contains(&(100, new_bytes)));
    assert!(!p.extents.iter().any(|e| e.0 == 200));
    assert!(plan(250, 1).is_none());
    assert!(Store::read_file_epoch_prepare(&st.epoch, &tx, top, 0, 1, &decode).is_err());
    assert!(Store::read_file_epoch_prepare(&st.epoch, &tx, 99, 0, 1, &decode).is_err());
}

#[test]
fn logged_operations_are_shown_and_replayed() {
    let mut st = fresh();
    let top = st.current_root().root_dir_ino;
    let hooks = CrashHooks::none();
    let a = st.epoch_create(top, b"a", &file(), NOW, &hooks, &roomy()).unwrap();
    let b = st.epoch_create(top, b"b", &file(), NOW, &hooks, &roomy()).unwrap();
    assert_ne!(a, b);
    let update = AttrUpdate {
        mode: Some(0o600),
        uid: None,
        gid: None,
        size: None,
        atime: None,
        mtime: None,
    };
    let v = st.epoch_setattr(a, &update, None, &decode, NOW, &hooks, &roomy()).unwrap();
    assert_eq!(v.mode & 0o7777, 0o600);
    let out = st.epoch_rename(top, b"a", top, b"c", NOW, &hooks, &roomy()).unwrap();
    assert_eq!(out.src_ino, a);
    assert_eq!(st.epoch_unlink(top, b"b", false, NOW, &hooks, &roomy()).unwrap(), b);
    assert!(st.epoch_unlink(top, b"b", false, NOW, &hooks, &roomy()).is_err());
    assert!(st.epoch_create(top, b"c", &file(), NOW, &hooks, &roomy()).is_err());
    st.epoch_write(a, &vec![raw_update(0, &[6; 40])], 40, &hooks, &roomy()).unwrap();
    assert_eq!(st.epoch_pending, 6);
    {
        let tx = st.begin_tx();
        let list = Store::read_dir_epoch(&st.epoch, &tx, top).unwrap();
        assert_eq!(list.len(), 1);
        assert_eq!(Store::get_inode_epoch(&st.epoch, &tx, a).unwrap().unwrap().size, 40);
        assert_eq!(Store::get_inode_epoch(&st.epoch, &tx, b).unwrap(), None);
    }
    let replayed = reopen(st.io.clone()).unwrap();
    st.durability_barrier(&hooks, &roomy()).unwrap();
    for s in [&replayed, &st] {
        assert_eq!(s.dir_lookup(top, b"c").unwrap().unwrap().ino, a);
        assert_eq!(s.dir_lookup(top, b"a").unwrap(), None);
        assert_eq!(s.get_inode(b).unwrap(), None);
        let inode = s.get_inode(a).unwrap().unwrap();
        assert_eq!(inode.size, 40);
        assert_eq!(inode.mode & 0o7777, 0o600);
        assert_eq!(s.fetch_object(&ChunkId::of(&[6; 40])).unwrap(), Some(vec![6; 40]));
    }
}

#[test]
fn a_read_fetches_what_its_chunks_refer_to() {
    let mut st = fresh();
    let top = st.current_root().root_dir_ino;
    let hooks = CrashHooks::none();
    let f = create(&mut st, top, b"f", &file()).unwrap();
    let data = vec![3u8; 64];
    st.commit_file_extents(f, &vec![raw_update(0, &data)], Some(64), NOW, &hooks, &roomy())
        .unwrap();
    let pending = vec![4u8; 64];
    st.epoch_write(f, &vec![raw_update(64, &pending)], 128, &hooks, &roomy()).unwrap();
    let stored = ChunkId::of(&data);
    let staged = ChunkId::of(&pending);
    let roots = vec![
        Descriptor { len: 64, form: Form::ExactRef { target: stored } },
        Descriptor { len: 64, form: Form::ExactRef { target: staged } },
        Descriptor { len: 64, form: Form::ExactRef { target: stored } },
    ];
    let tx = st.begin_tx();
    let none = Store::collect_read_deps(&st.epoch, &tx, &roots, 0, &decode).unwrap();
    assert!(none.is_empty());
    let deps = Store::collect_read_deps(&st.epoch, &tx, &roots, 1, &decode).unwrap();
    assert_eq!(deps, vec![stored, staged]);
    drop(tx);
    let missing = ChunkId::of(b"missing");
    let got = st.materialize_prepare(&vec![staged, missing, stored]).unwrap();
    assert_eq!(got, vec![Some(pending), None, Some(data)]);
}

#[test]
fn a_removed_name_is_created_again() {
    let mut st = fresh();
    let top = st.current_root().root_dir_ino;
    let hooks = CrashHooks::none();
    let f = create(&mut st, top, b"f", &file()).unwrap();
    assert_eq!(st.epoch_unlink(top, b"f", false, NOW, &hooks, &roomy()).unwrap(), f);
    let ino = st.epoch_create(top, b"f", &file(), NOW, &hooks, &roomy()).unwrap();
    assert_ne!(ino, f);
    let tx = st.begin_tx();
    let e = Store::dir_lookup_epoch(&st.epoch, &tx, top, b"f").unwrap().unwrap();
    assert_eq!(e.ino, ino);
    drop(tx);
    st.epoch_checkpoint(&hooks, &roomy()).unwrap();
    assert_eq!(st.dir_lookup(top, b"f").unwrap().unwrap().ino, ino);
}

#[test]
fn a_snapshot_name_beyond_the_format_is_no_snapshot() {
    let mut st = fresh();
    let long = vec![b'n'; 70_000];
    let out = st.restore_snapshot(&long, &CrashHooks::none(), &roomy());
    assert!(matches!(out, Err(StoreError::Invariant(_))));
}

#[test]
fn a_record_that_does_not_fit_goes_to_the_next_segment() {
    let mut st = fresh();
    let first = st.current_segment_seq();
    let at = st.segment.durable_end() + st.segment.buffered_len();
    let rec = |b: u8| PendingRecord {
        tag: RecordTag::Data,
        payload: vec![b; 10],
        materialized_len: None,
    };
    st.config.segment_size = at + HEADER_SIZE + 10;
    st.append_records(&vec![rec(1)]).unwrap();
    assert_eq!(st.current_segment_seq(), first);
    assert_eq!(st.segment.durable_end() + st.segment.buffered_len(), st.config.segment_size);
    st.append_records(&vec![rec(2), rec(3)]).unwrap();
    assert_eq!(st.current_segment_seq(), first + 1);
    assert_eq!(
        st.segment.durable_end() + st.segment.buffered_len(),
        4 + 2 * (HEADER_SIZE + 10)
    );
}

fn tags(st: &Store<MemIo>) -> Vec<RecordTag> {
    let file = st.io.file(st.current_segment_seq());
    scan_segment(&file, 1000).unwrap().0.iter().map(|r| r.tag).collect()
}

#[test]
fn a_durable_commit_survives_a_loss_of_power() {
    let mut st = fresh();
    let top = st.current_root().root_dir_ino;
    let f = create(&mut st, top, b"f", &file()).unwrap();
    assert_eq!(st.io.synced, st.io.segments);
    assert_eq!(st.io.synced_superblock, st.io.superblock);
    let back = reopen(st.io.without_power()).unwrap();
    assert_eq!(back.dir_lookup(top, b"f").unwrap().unwrap().ino, f);
    // Full segments are synced as they are left behind.
    let first = st.current_segment_seq();
    st.config.segment_size = st.segment.durable_end() + 100;
    let g = create(&mut st, top, b"g", &file()).unwrap();
    assert!(st.current_segment_seq() > first);
    let back = reopen(st.io.without_power()).unwrap();
    assert_eq!(back.dir_lookup(top, b"f").unwrap().unwrap().ino, f);
    assert_eq!(back.dir_lookup(top, b"g").unwrap().unwrap().ino, g);
}

#[test]
fn what_is_logged_is_durable_behind_a_barrier() {
    let mut st = fresh();
    let top = st.current_root().root_dir_ino;
    let hooks = CrashHooks::none();
    let ino = st.epoch_create(top, b"p", &file(), NOW, &hooks, &roomy()).unwrap();
    // A crash of the process keeps what was flushed, a loss of power what was synced.
    let crashed = reopen(st.io.clone()).unwrap();
    assert_eq!(crashed.dir_lookup(top, b"p").unwrap().unwrap().ino, ino);
    assert_ne!(st.io.synced, st.io.segments);
    let dark = reopen(st.io.without_power()).unwrap();
    assert_eq!(dark.dir_lookup(top, b"p").unwrap(), None);
    st.durability_barrier(&hooks, &roomy()).unwrap();
    let dark = reopen(st.io.without_power()).unwrap();
    assert_eq!(dark.dir_lookup(top, b"p").unwrap().unwrap().ino, ino);
}

#[test]
fn a_recovered_store_is_logged_to_and_recovers_again() {
    let mut st = fresh();
    let top = st.current_root().root_dir_ino;
    let hooks = CrashHooks::none();
    let a = st.epoch_create(top, b"a", &dir(), NOW, &hooks, &roomy()).unwrap();
    let mut st = reopen(st.io.clone()).unwrap();
    let b = st.epoch_create(a, b"b", &file(), NOW, &hooks, &roomy()).unwrap();
    st.epoch_checkpoint(&hooks, &roomy()).unwrap();
    let c = st.epoch_create(a, b"c", &file(), NOW, &hooks, &roomy()).unwrap();
    assert_eq!(st.epoch_unlink(a, b"b", false, NOW, &hooks, &roomy()).unwrap(), b);
    let st = reopen(st.io.clone()).unwrap();
    assert_eq!(st.dir_lookup(top, b"a").unwrap().unwrap().ino, a);
    assert_eq!(st.dir_lookup(a, b"b").unwrap(), None);
    assert_eq!(st.dir_lookup(a, b"c").unwrap().unwrap().ino, c);
}

#[test]
fn records_are_laid_down_under_their_tags() {
    let mut st = fresh();
    let top = st.current_root().root_dir_ino;
    let hooks = CrashHooks::none();
    assert_eq!(tags(&st).last(), Some(&RecordTag::Root));
    assert!(!tags(&st).contains(&RecordTag::MutationLog));
    let before = tags(&st).len();
    st.epoch_create(top, b"p", &file(), NOW, &hooks, &roomy()).unwrap();
    let now = tags(&st);
    assert_eq!(now.last(), Some(&RecordTag::MutationLog));
    assert_eq!(now.iter().filter(|t| **t == RecordTag::MutationLog).count(), 1);
    assert!(now[before..now.len() - 1].iter().all(|t| *t == RecordTag::Inode));
    st.epoch_checkpoint(&hooks, &roomy()).unwrap();
    let merged = tags(&st);
    assert_eq!(merged.last(), Some(&RecordTag::Root));
    assert_eq!(merged[now.len()..].iter().filter(|t| **t == RecordTag::MutationLog).count(), 0);
}

#[test]
fn a_payload_reached_in_two_kinds_is_walked_in_both() {
    let mut st = fresh();
    let top = st.current_root().root_dir_ino;
    let hooks = CrashHooks::none();
    let f = create(&mut st, top, b"f", &file()).unwrap();
    let mut inos = vec![];
    for i in 0..150u64 {
        let name = format!("n{i:03}").into_bytes();
        inos.push(st.epoch_create(top, &name, &file(), NOW, &hooks, &roomy()).unwrap());
    }
    st.epoch_checkpoint(&hooks, &roomy()).unwrap();
    // A file holds the very bytes of the node at the top of the directory.
    let node = match st.get_inode(top).unwrap().unwrap().data {
        InodeData::Directory { dir_root } => dir_root,
        _ => panic!("a directory"),
    };
    let bytes = st.fetch_object(&node).unwrap().unwrap();
    let size = bytes.len() as u64;
    st.commit_file_extents(f, &vec![raw_update(0, &bytes)], Some(size), NOW, &hooks, &roomy())
        .unwrap();
    let victims: Vec<u64> = st.io.segments.keys().copied().collect();
    st.collect(&victims, &decode, &hooks, &roomy()).unwrap();
    for (i, ino) in inos.iter().enumerate() {
        let name = format!("n{i:03}").into_bytes();
        assert_eq!(st.dir_lookup(top, &name).unwrap().unwrap().ino, *ino);
    }
    assert_eq!(st.fetch_object(&node).unwrap(), Some(bytes));
}

#[test]
fn a_crash_before_the_victims_go_keeps_everything() {
    let mut st = fresh();
    let top = st.current_root().root_dir_ino;
    let f = create(&mut st, top, b"f", &file()).unwrap();
    let data = vec![8u8; 500];
    st.commit_file_extents(f, &vec![raw_update(0, &data)], Some(500), NOW, &CrashHooks::none(), &roomy())
        .unwrap();
    let victim = st.current_segment_seq();
    let hooks = CrashHooks { armed: Some(CrashPoint::BeforeOldSegmentDelete) };
    let out = st.collect(&vec![victim], &decode, &hooks, &roomy());
    assert!(matches!(out, Err(StoreError::CrashSimulated(_))));
    assert!(st.io.segments.contains_key(&victim));
    for io in [st.io.clone(), st.io.without_power()] {
        let back = reopen(io).unwrap();
        assert_eq!(back.dir_lookup(top, b"f").unwrap().unwrap().ino, f);
        assert_eq!(back.fetch_object(&ChunkId::of(&data)).unwrap(), Some(data.clone()));
    }
}

#[test]
fn pages_list_a_directory_once() {
    let mut st = fresh();
    let top = st.current_root().root_dir_ino;
    let names: Vec<Vec<u8>> = (0..7u8).map(|i| vec![b'a' + i]).collect();
    for name in names.iter().rev() {
        create(&mut st, top, name, &file()).unwrap();
    }
    let mut seen: Vec<Vec<u8>> = vec![];
    let mut start: Option<Vec<u8>> = None;
    loop {
        let (page, more) = st.dir_scan(top, start.as_deref(), 3).unwrap();
        seen.extend(page.iter().map(|e| e.0.clone()));
        if !more {
            assert_eq!(page.len(), 1);
            break;
        }
        assert_eq!(page.len(), 3);
        start = page.last().map(|e| e.0.clone());
    }
    assert_eq!(seen, names);
}
