use entropyfs_store::chunk::ChunkId;
use entropyfs_store::codec::{CodecError, Reader, Writer};
use entropyfs_store::crc::crc32;
use entropyfs_store::durability::DurabilityGroup;
use entropyfs_store::inode::Timespec;
use entropyfs_store::log::{decode_envelope, encode_envelope, envelope_seq, MutationOp};
use entropyfs_store::record::{decode, encode, HEADER_SIZE};
use entropyfs_store::superblock::Superblock;
use entropyfs_store::version::RecordTag;

#[test]
fn crc_of_the_check_string() {
    assert_eq!(crc32(b"123456789"), 0xCBF4_3926);
    assert_eq!(crc32(b""), 0);
}

#[test]
fn digest_is_blake3() {
    let empty = ChunkId::of(b"");
    assert_eq!(
        &empty.bytes[..8],
        &[0xaf, 0x13, 0x49, 0xb9, 0xf5, 0xf9, 0xa1, 0xa6]
    );
    assert_ne!(ChunkId::of(b"a"), ChunkId::of(b"b"));
    assert!(ChunkId { bytes: [0; 32] }.is_zero());
}

#[test]
fn clock_gives_a_time_in_range() {
    let t = Timespec::now();
    assert!(t.nsec < 1_000_000_000);
    assert!(t.sec > 1_000_000_000);
}

#[test]
fn primitives_round_trip() {
    let mut w = Writer::new();
    w.u8(1);
    w.u16(0x0203);
    w.u32(0x0405_0607);
    w.u64(u64::MAX);
    w.bytes16(b"name").unwrap();
    let bytes = w.into_bytes();
    assert_eq!(&bytes[..3], &[1, 3, 2]);
    let mut r = Reader::new(&bytes);
    assert_eq!(r.u8().unwrap(), 1);
    assert_eq!(r.u16().unwrap(), 0x0203);
    assert_eq!(r.u32().unwrap(), 0x0405_0607);
    assert_eq!(r.u64().unwrap(), u64::MAX);
    assert_eq!(r.bytes16().unwrap(), b"name");
    assert!(r.done());
    assert_eq!(r.u8(), Err(CodecError::Truncated));
    let mut long = Writer::new();
    assert!(long.bytes16(&vec![0; 70_000]).is_err());
}

#[test]
fn records_round_trip_and_detect_damage() {
    let bytes = encode(RecordTag::Inode, 0, None, b"payload");
    assert_eq!(bytes.len() as u64, HEADER_SIZE + 7);
    let rec = decode(&bytes, 0).unwrap().unwrap();
    assert_eq!(rec.payload, b"payload".to_vec());
    assert_eq!(rec.content_id, ChunkId::of(b"payload"));
    let mut bad = bytes.clone();
    bad[HEADER_SIZE as usize] ^= 1;
    assert!(decode(&bad, 0).is_err());
    assert!(decode(&bytes[..bytes.len() - 1], 0).is_err());
}

#[test]
fn superblock_round_trips() {
    let sb = Superblock { generation: 77, segment_seq: 3, ..Default::default() };
    assert_eq!(Superblock::decode(&sb.encode()).unwrap(), sb);
    let mut bad = sb.encode();
    bad[20] ^= 1;
    assert!(Superblock::decode(&bad).is_err());
}

#[test]
fn envelopes_round_trip() {
    let id = ChunkId::of(b"i");
    let ops = vec![
        MutationOp::Create {
            parent: 1,
            name: b"n".to_vec(),
            ino: 2,
            d_type: 8,
            inode_id: id,
            parent_inode_id: id,
        },
        MutationOp::Setattr { ino: 2, inode_id: id },
        MutationOp::Unlink {
            parent: 1,
            name: b"n".to_vec(),
            child: 2,
            is_dir: false,
            parent_inode_id: id,
            child_inode_id: None,
        },
        MutationOp::Rename {
            src_parent: 1,
            src_name: b"a".to_vec(),
            dst_parent: 3,
            dst_name: b"b".to_vec(),
            src_ino: 2,
            dst_ino: Some(4),
            src_is_dir: true,
            sp_inode_id: id,
            dp_inode_id: id,
            src_child_inode_id: Some(id),
            dst_child_inode_id: None,
        },
        MutationOp::Write {
            ino: 2,
            size: 10,
            chunks: vec![(0, id, b"desc".to_vec())],
            inode_id: id,
        },
    ];
    for (i, op) in ops.iter().enumerate() {
        let bytes = encode_envelope(i as u64 + 5, op);
        assert_eq!(envelope_seq(&bytes).unwrap(), i as u64 + 5);
        let (seq, back) = decode_envelope(&bytes).unwrap();
        assert_eq!(seq, i as u64 + 5);
        assert_eq!(back.encode(), op.encode());
        assert!(decode_envelope(&bytes[..bytes.len() - 1]).is_err());
        let whole = op.encode();
        for n in 0..whole.len() {
            assert!(MutationOp::decode(&whole[..n]).is_err());
        }
    }
}

#[test]
fn durability_groups_take_the_largest_need() {
    let mut g = DurabilityGroup::new();
    g.register(5, 1);
    g.register(3, 4);
    assert_eq!(g.max_required(), (5, 4));
}
