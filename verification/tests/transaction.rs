use entropyfs_store::transaction::CrashPoint;

#[test]
fn crash_points_are_distinct() {
    let points = [
        CrashPoint::AfterRecordAppend,
        CrashPoint::AfterSegmentFdatasync,
        CrashPoint::AfterSegmentDirFsync,
        CrashPoint::AfterRootWrite,
        CrashPoint::AfterSuperblockWrite,
        CrashPoint::AfterSuperblockFsync,
        CrashPoint::BeforeOldSegmentDelete,
    ];
    let mut seen = std::collections::HashSet::new();
    for p in points {
        assert!(seen.insert(p));
    }
    assert_eq!(points.len(), 7);
}
