//! Snapshot tree: name to pinned root.

use vstd::prelude::*;

use crate::bytes::copy_bytes;
use crate::chunk::{zero_id, ChunkId};
use crate::codec::{lemma_scan_take, lemma_scan_u64, lemma_unscan_u64, scan_end, scan_take, scan_u64, u64_bytes,
    CodecError, Cursor, Writer};
use crate::index::{self, grown, pair_views, trusty, BTreeError, ObjectProvider};
use crate::sorted::{erase, has_key, lookup as find, upsert};
use crate::tree::{clash_free, lists, max_height};

verus! {

/// A snapshot entry.
#[derive(Debug, Clone, Copy, PartialEq, Eq)]
pub struct SnapshotEntry {
    /// The pinned root object id.
    pub root_id: ChunkId,
    /// Creation time (unix nanoseconds).
    pub created_unix_ns: u64,
}

impl View for SnapshotEntry {
    type V = (Seq<u8>, u64);

    open spec fn view(&self) -> (Seq<u8>, u64) {
        (self.root_id@, self.created_unix_ns)
    }
}

/// The stored value of a snapshot: pinned root id and creation time.
pub open spec fn snapshot_bytes(e: (Seq<u8>, u64)) -> Seq<u8> {
    e.0 + u64_bytes(e.1)
}

/// The snapshots with one more, or with another under the name.
pub open spec fn snapshot_put(
    s: Seq<(Seq<u8>, Seq<u8>)>,
    name: Seq<u8>,
    e: (Seq<u8>, u64),
) -> Seq<(Seq<u8>, Seq<u8>)> {
    upsert(s, name, snapshot_bytes(e))
}

/// The snapshots without one.
pub open spec fn snapshot_cut(s: Seq<(Seq<u8>, Seq<u8>)>, name: Seq<u8>) -> Seq<
    (Seq<u8>, Seq<u8>),
> {
    erase(s, name)
}

pub open spec fn parse_snapshot(bytes: Seq<u8>) -> Result<(Seq<u8>, u64), CodecError> {
    let (root_id, st) = scan_take(Ok(bytes), 32);
    let (created, st) = scan_u64(st);
    match scan_end(st) {
        Err(e) => Err(e),
        Ok(_) => Ok((root_id, created)),
    }
}

/// Decoding an encoded snapshot entry gives the entry back.
pub proof fn snapshot_round_trip(e: (Seq<u8>, u64))
    requires
        e.0.len() == 32,
    ensures
        parse_snapshot(snapshot_bytes(e)) == Ok::<(Seq<u8>, u64), CodecError>(e),
        snapshot_bytes(e).len() == 40,
{
    let none = Seq::<u8>::empty();
    lemma_scan_take(e.0, u64_bytes(e.1));
    lemma_scan_u64(e.1, none);
    assert(u64_bytes(e.1) + none =~= u64_bytes(e.1));
}

/// A snapshot entry that decodes is encoded by the bytes it came from.
pub proof fn decoded_snapshot_encodes_back(b: Seq<u8>)
    requires
        parse_snapshot(b) is Ok,
    ensures
        snapshot_bytes(parse_snapshot(b)->Ok_0) == b,
{
    let rest = b.skip(32);
    assert(b =~= b.take(32) + rest);
    lemma_unscan_u64(rest);
    assert(scan_u64(Ok(rest)).1->Ok_0 =~= Seq::empty());
    assert(snapshot_bytes(parse_snapshot(b)->Ok_0) =~= b);
}

impl SnapshotEntry {
    /// Encode the value bytes.
    pub fn encode(&self) -> (r: Vec<u8>)
        ensures
            r@ == snapshot_bytes(self@),
    {
        let mut w = Writer::new();
        w.bytes(self.root_id.as_slice());
        w.u64(self.created_unix_ns);
        assert(w@ =~= snapshot_bytes(self@));
        w.into_bytes()
    }

    /// Decode value bytes.
    pub fn decode(bytes: &[u8]) -> (r: Result<SnapshotEntry, CodecError>)
        ensures
            match r {
                Ok(e) => parse_snapshot(bytes@) == Ok::<(Seq<u8>, u64), CodecError>(e@),
                Err(x) => parse_snapshot(bytes@) == Err::<(Seq<u8>, u64), CodecError>(x),
            },
    {
        let mut c = Cursor::new(bytes);
        let root_id = c.id();
        let created_unix_ns: u64 = c.u64();
        c.end();
        match c.result() {
            Err(e) => Err(e),
            Ok(_) => Ok(SnapshotEntry { root_id, created_unix_ns }),
        }
    }
}

/// What a lookup of `name` in the stored values `s` gives.
pub open spec fn snapshot_in(s: Seq<(Seq<u8>, Seq<u8>)>, name: Seq<u8>) -> Result<
    Option<(Seq<u8>, u64)>,
    CodecError,
> {
    match find(s, name) {
        None => Ok(None),
        Some(b) => match parse_snapshot(b) {
            Ok(e) => Ok(Some(e)),
            Err(x) => Err(x),
        },
    }
}

pub open spec fn opt_entry(e: Option<SnapshotEntry>) -> Option<(Seq<u8>, u64)> {
    match e {
        Some(x) => Some(x@),
        None => None,
    }
}

/// Look up a snapshot by name.
pub fn lookup<P: ObjectProvider>(
    tree_root: ChunkId,
    name: &[u8],
    order: u16,
    max_fanout: u32,
    provider: &P,
) -> (r: Result<Option<SnapshotEntry>, BTreeError>)
    ensures
        tree_root@ == zero_id() ==> r == Ok::<Option<SnapshotEntry>, BTreeError>(None),
        forall|h: nat, s: Seq<(Seq<u8>, Seq<u8>)>|
            trusty(provider) && #[trigger] lists(
                provider.payloads(),
                tree_root@,
                order,
                max_fanout,
                h,
                s,
            ) ==> match r {
                Ok(e) => snapshot_in(s, name@) == Ok::<Option<(Seq<u8>, u64)>, CodecError>(
                    opt_entry(e),
                ),
                Err(_) => provider.may_fail() || h > max_height() || snapshot_in(s, name@) is Err,
            },
{
    match index::get(tree_root, name, order, max_fanout, provider) {
        Err(e) => Err(e),
        Ok(None) => Ok(None),
        Ok(Some(bytes)) => match SnapshotEntry::decode(&bytes) {
            Ok(e) => Ok(Some(e)),
            Err(e) => Err(BTreeError::corrupt(e)),
        },
    }
}

/// Insert a snapshot.
pub fn insert<P: ObjectProvider>(
    tree_root: ChunkId,
    name: &[u8],
    entry: SnapshotEntry,
    order: u16,
    max_fanout: u32,
    provider: &mut P,
) -> (r: Result<ChunkId, BTreeError>)
    ensures
        grown(old(provider), final(provider)),
        name@.len() > u16::MAX ==> r == Err::<ChunkId, BTreeError>(BTreeError::KeyTooLong),
        forall|h: nat, s: Seq<(Seq<u8>, Seq<u8>)>|
            name@.len() <= u16::MAX && 1 <= order <= max_fanout && old(provider).faithful() && clash_free(final(provider).payloads()) && #[trigger] lists(
                old(provider).payloads(),
                tree_root@,
                order,
                max_fanout,
                h,
                s,
            ) ==> match r {
                Ok(id) => lists(
                    final(provider).payloads(),
                    id@,
                    order,
                    max_fanout,
                    h + 1,
                    upsert(s, name@, snapshot_bytes(entry@)),
                ) && id@ != zero_id(),
                Err(_) => old(provider).may_fail() || h > max_height(),
            },
{
    proof {
        snapshot_round_trip(entry@);
    }
    index::insert(tree_root, name, &entry.encode(), order, max_fanout, provider)
}

/// Remove a snapshot; returns whether present.
pub fn remove<P: ObjectProvider>(
    tree_root: ChunkId,
    name: &[u8],
    order: u16,
    max_fanout: u32,
    provider: &mut P,
) -> (r: Result<(ChunkId, bool), BTreeError>)
    ensures
        grown(old(provider), final(provider)),
        forall|h: nat, s: Seq<(Seq<u8>, Seq<u8>)>|
            old(provider).faithful() && clash_free(
                final(provider).payloads(),
            ) && #[trigger] lists(
                old(provider).payloads(),
                tree_root@,
                order,
                max_fanout,
                h,
                s,
            ) ==> match r {
                Ok(o) => {
                    &&& lists(
                        final(provider).payloads(),
                        o.0@,
                        order,
                        max_fanout,
                        h,
                        erase(s, name@),
                    )
                    &&& o.1 == has_key(s, name@)
                    &&& !o.1 ==> o.0@ == tree_root@ && final(provider).payloads() == old(provider).payloads()
                    &&& snapshot_in(s, name@) is Ok
                },
                Err(_) => old(provider).may_fail() || h > max_height() || snapshot_in(s, name@) is Err,
            },
{
    let before = match lookup(tree_root, name, order, max_fanout, provider) {
        Ok(v) => v,
        Err(e) => return Err(e),
    };
    match index::remove(tree_root, name, order, max_fanout, provider) {
        Ok(root) => Ok((root, before.is_some())),
        Err(e) => Err(e),
    }
}

/// `out` is `raw` with every value decoded.
pub open spec fn snapshots_decode(
    raw: Seq<(Seq<u8>, Seq<u8>)>,
    out: Seq<(Vec<u8>, SnapshotEntry)>,
) -> bool {
    &&& out.len() == raw.len()
    &&& forall|i: int|
        0 <= i < raw.len() ==> out[i].0@ == (#[trigger] raw[i]).0 && parse_snapshot(raw[i].1)
            == Ok::<(Seq<u8>, u64), CodecError>(out[i].1@)
}

/// List all snapshots in name order.
pub fn list<P: ObjectProvider>(
    tree_root: ChunkId,
    order: u16,
    max_fanout: u32,
    provider: &P,
) -> (r: Result<Vec<(Vec<u8>, SnapshotEntry)>, BTreeError>)
    ensures
        forall|h: nat, s: Seq<(Seq<u8>, Seq<u8>)>|
            trusty(provider) && s.len() <= usize::MAX && #[trigger] lists(
                provider.payloads(),
                tree_root@,
                order,
                max_fanout,
                h,
                s,
            ) ==> match r {
                Ok(o) => snapshots_decode(s, o@),
                Err(_) => provider.may_fail() || h > max_height() || exists|i: int|
                    0 <= i < s.len() && parse_snapshot((#[trigger] s[i]).1) is Err,
            },
{
    let entries = match index::scan_all(tree_root, order, max_fanout, provider) {
        Ok(v) => v,
        Err(e) => return Err(e),
    };
    let ghost raw = pair_views(entries@);
    let mut out: Vec<(Vec<u8>, SnapshotEntry)> = Vec::with_capacity(entries.len());
    let mut i: usize = 0;
    while i < entries.len()
        invariant
            i <= entries@.len(),
            raw == pair_views(entries@),
            snapshots_decode(raw.take(i as int), out@),
            forall|h: nat, s: Seq<(Seq<u8>, Seq<u8>)>|
                trusty(provider) && s.len() <= usize::MAX && #[trigger] lists(
                    provider.payloads(),
                    tree_root@,
                    order,
                    max_fanout,
                    h,
                    s,
                ) ==> raw == s,
        decreases entries@.len() - i,
    {
        let (k, v) = (&entries[i].0, &entries[i].1);
        assert(raw[i as int] == (k@, v@));
        match SnapshotEntry::decode(v) {
            Ok(e) => {
                let ghost had = out@;
                out.push((copy_bytes(k), e));
                proof {
                    let now = raw.take(i + 1);
                    assert forall|j: int| 0 <= j < now.len() implies out@[j].0@ == (
                    #[trigger] now[j]).0 && parse_snapshot(now[j].1) == Ok::<
                        (Seq<u8>, u64),
                        CodecError,
                    >(out@[j].1@) by {
                        if j < i {
                            assert(now[j] == raw.take(i as int)[j]);
                            assert(out@[j] == had[j]);
                        }
                    }
                }
            },
            Err(e) => return Err(BTreeError::corrupt(e)),
        }
        i += 1;
    }
    assert(raw.take(i as int) =~= raw);
    Ok(out)
}

} // verus!
