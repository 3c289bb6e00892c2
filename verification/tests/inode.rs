use entropyfs_store::codec::CodecError;
use entropyfs_store::inode::{Inode, InodeData, DATA_DEVICE};
use entropyfs_store::mode;

#[test]
fn file_inode_roundtrip() {
    let ino = Inode::new_file(1000, 1000, 0o644);
    let bytes = ino.encode();
    let back = Inode::decode(&bytes).unwrap();
    assert_eq!(back, ino);
    assert!(back.is_file());
}

#[test]
fn dir_inode_roundtrip() {
    let ino = Inode::new_dir(1000, 1000, 0o755);
    let bytes = ino.encode();
    let back = Inode::decode(&bytes).unwrap();
    assert_eq!(back, ino);
    assert!(back.is_dir());
    assert_eq!(back.nlink, 2);
}

#[test]
fn symlink_roundtrip() {
    let ino = Inode::new_symlink(b"/some/target".to_vec(), 0, 0);
    let bytes = ino.encode();
    let back = Inode::decode(&bytes).unwrap();
    assert_eq!(back, ino);
    assert!(back.is_symlink());
    assert_eq!(back.size, 12);
}

#[test]
fn corrupt_inode_rejected() {
    let ino = Inode::new_file(1, 1, 0o600);
    let bytes = ino.encode();
    for flip in [0usize, 10, bytes.len() - 1] {
        let mut bad = bytes.clone();
        bad[flip] ^= 0xFF;
        // Either a typed error or a valid different inode — never a
        // panic.
        let _ = Inode::decode(&bad);
    }
}

#[test]
fn inconsistent_type_rejected() {
    let ino = Inode::new_file(1, 1, 0o600);
    let mut bytes = ino.encode();
    // Corrupt the mode type bits to DIR while data kind stays FILE.
    let mode = u32::from_le_bytes(bytes[0..4].try_into().unwrap());
    let bad_mode = (mode & !mode::S_IFMT) | mode::S_IFDIR;
    bytes[0..4].copy_from_slice(&bad_mode.to_le_bytes());
    assert!(Inode::decode(&bytes).is_err());
}

#[test]
fn device_has_device_type_bits() {
    for (bits, ok) in [
        (mode::S_IFCHR, true),
        (mode::S_IFBLK, true),
        (mode::S_IFDIR, false),
        (mode::S_IFLNK, false),
        (mode::S_IFREG, false),
        (mode::S_IFSOCK, false),
    ] {
        let i = Inode {
            mode: bits | 0o755,
            data_kind: DATA_DEVICE,
            data: InodeData::Device,
            ..Inode::new_file(0, 0, 0)
        };
        let back = Inode::decode(&i.encode());
        if ok {
            assert_eq!(back, Ok(i));
        } else {
            assert_eq!(back, Err(CodecError::Malformed));
        }
    }
}
