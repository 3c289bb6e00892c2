//! Directory operations over the persistent B-tree (name to inode number and
//! `d_type`).
//!
//! Names are raw bytes. `.` and `..` are synthesized by the layer above, never
//! stored.

use vstd::prelude::*;

use crate::bytes::{bytes_equal, copy_bytes, lemma_le_canonical, lemma_pow256};
use crate::chunk::{zero_id, ChunkId};
use crate::codec::{lemma_scan_u64, lemma_scan_u8, scan_end, scan_u64, scan_u8, u64_bytes, u8_bytes,
    CodecError, Cursor, Writer};
use crate::index::{self, first_of, grown, lemma_range_from, opt_slice, pair_views, range_of, trusty,
    BTreeError, ObjectProvider};
use crate::sorted::{erase, has_key, lemma_rank, lookup as find, rank, sorted, upsert};
use crate::tree::{clash_free, lemma_lists_sorted, lists, max_height};

verus! {

/// A decoded directory entry value: inode number and d_type.
#[derive(Debug, Clone, Copy, PartialEq, Eq, Structural)]
pub struct DirEntry {
    /// Target inode number.
    pub ino: u64,
    /// `d_type` (directory, regular file, symlink, ...).
    pub d_type: u8,
}

/// The stored value of an entry.
pub open spec fn entry_bytes(e: DirEntry) -> Seq<u8> {
    u64_bytes(e.ino) + u8_bytes(e.d_type)
}

/// The entry behind a stored value.
pub open spec fn parse_entry(bytes: Seq<u8>) -> Result<DirEntry, CodecError> {
    let (ino, st) = scan_u64(Ok(bytes));
    let (d_type, st) = scan_u8(st);
    match scan_end(st) {
        Err(e) => Err(e),
        Ok(_) => Ok(DirEntry { ino, d_type }),
    }
}

/// Decoding an encoded entry gives the entry back.
pub proof fn entry_round_trip(e: DirEntry)
    ensures
        parse_entry(entry_bytes(e)) == Ok::<DirEntry, CodecError>(e),
        entry_bytes(e).len() == 9,
{
    let none = Seq::<u8>::empty();
    lemma_scan_u64(e.ino, u8_bytes(e.d_type));
    lemma_scan_u8(e.d_type, none);
    assert(u8_bytes(e.d_type) + none =~= u8_bytes(e.d_type));
}

/// A stored value is the encoding of the entry it decodes to.
pub proof fn entry_canonical(bytes: Seq<u8>)
    ensures
        parse_entry(bytes) matches Ok(e) ==> entry_bytes(e) == bytes,
{
    if let Ok(e) = parse_entry(bytes) {
        let a = bytes.take(8);
        let b = bytes.skip(8).take(1);
        lemma_le_canonical(a);
        lemma_le_canonical(b);
        lemma_pow256();
        assert(bytes.len() == 9);
        assert(a + b =~= bytes);
    }
}

impl DirEntry {
    /// Encode the value bytes.
    pub fn encode(&self) -> (r: Vec<u8>)
        ensures
            r@ == entry_bytes(*self),
    {
        let mut w = Writer::new();
        w.u64(self.ino);
        w.u8(self.d_type);
        assert(w@ =~= entry_bytes(*self));
        w.into_bytes()
    }

    /// Decode value bytes.
    pub fn decode(bytes: &[u8]) -> (r: Result<DirEntry, CodecError>)
        ensures
            r == parse_entry(bytes@),
    {
        let mut c = Cursor::new(bytes);
        let ino: u64 = c.u64();
        let d_type: u8 = c.u8();
        c.end();
        match c.result() {
            Err(e) => Err(e),
            Ok(_) => Ok(DirEntry { ino, d_type }),
        }
    }
}

/// What a lookup of `name` in the stored values `s` gives.
pub open spec fn entry_in(s: Seq<(Seq<u8>, Seq<u8>)>, name: Seq<u8>) -> Result<
    Option<DirEntry>,
    CodecError,
> {
    match find(s, name) {
        None => Ok(None),
        Some(b) => match parse_entry(b) {
            Ok(e) => Ok(Some(e)),
            Err(x) => Err(x),
        },
    }
}

/// Look up a name in a directory.
pub fn lookup<P: ObjectProvider>(
    dir_root: ChunkId,
    name: &[u8],
    order: u16,
    max_fanout: u32,
    provider: &P,
) -> (r: Result<Option<DirEntry>, BTreeError>)
    ensures
        dir_root@ == zero_id() ==> r == Ok::<Option<DirEntry>, BTreeError>(None),
        forall|h: nat, s: Seq<(Seq<u8>, Seq<u8>)>|
            trusty(provider) && #[trigger] lists(
                provider.payloads(),
                dir_root@,
                order,
                max_fanout,
                h,
                s,
            ) ==> match r {
                Ok(e) => entry_in(s, name@) == Ok::<Option<DirEntry>, CodecError>(e),
                Err(_) => provider.may_fail() || h > max_height() || entry_in(s, name@) is Err,
            },
{
    match index::get(dir_root, name, order, max_fanout, provider) {
        Err(e) => Err(e),
        Ok(None) => Ok(None),
        Ok(Some(bytes)) => match DirEntry::decode(&bytes) {
            Ok(e) => Ok(Some(e)),
            Err(e) => Err(BTreeError::corrupt(e)),
        },
    }
}

/// Insert a name (replaces an existing entry).
pub fn insert<P: ObjectProvider>(
    dir_root: ChunkId,
    name: &[u8],
    entry: DirEntry,
    order: u16,
    max_fanout: u32,
    provider: &mut P,
) -> (r: Result<ChunkId, BTreeError>)
    ensures
        grown(old(provider), final(provider)),
        name@.len() > u16::MAX ==> r == Err::<ChunkId, BTreeError>(BTreeError::KeyTooLong),
        forall|h: nat, s: Seq<(Seq<u8>, Seq<u8>)>|
            name@.len() <= u16::MAX && 1 <= order <= max_fanout && old(provider).faithful() && clash_free(final(provider).payloads()) && #[trigger] lists(
                old(provider).payloads(),
                dir_root@,
                order,
                max_fanout,
                h,
                s,
            ) ==> match r {
                Ok(id) => lists(
                    final(provider).payloads(),
                    id@,
                    order,
                    max_fanout,
                    h + 1,
                    upsert(s, name@, entry_bytes(entry)),
                ) && id@ != zero_id(),
                Err(_) => old(provider).may_fail() || h > max_height(),
            },
{
    proof {
        entry_round_trip(entry);
    }
    index::insert(dir_root, name, &entry.encode(), order, max_fanout, provider)
}

/// Remove a name; returns the new root and whether anything was removed.
pub fn remove<P: ObjectProvider>(
    dir_root: ChunkId,
    name: &[u8],
    order: u16,
    max_fanout: u32,
    provider: &mut P,
) -> (r: Result<(ChunkId, bool), BTreeError>)
    ensures
        grown(old(provider), final(provider)),
        forall|h: nat, s: Seq<(Seq<u8>, Seq<u8>)>|
            old(provider).faithful() && clash_free(
                final(provider).payloads(),
            ) && #[trigger] lists(
                old(provider).payloads(),
                dir_root@,
                order,
                max_fanout,
                h,
                s,
            ) ==> match r {
                Ok(o) => {
                    &&& lists(
                        final(provider).payloads(),
                        o.0@,
                        order,
                        max_fanout,
                        h,
                        erase(s, name@),
                    )
                    &&& o.1 == has_key(s, name@)
                    &&& !o.1 ==> o.0@ == dir_root@ && final(provider).payloads() == old(provider).payloads()
                    &&& entry_in(s, name@) is Ok
                },
                Err(_) => old(provider).may_fail() || h > max_height() || entry_in(s, name@) is Err,
            },
{
    let before = match lookup(dir_root, name, order, max_fanout, provider) {
        Ok(v) => v,
        Err(e) => return Err(e),
    };
    match index::remove(dir_root, name, order, max_fanout, provider) {
        Ok(root) => Ok((root, before.is_some())),
        Err(e) => Err(e),
    }
}

/// Scan output: (name, entry) pairs in name order plus whether more entries
/// remain beyond the limit.
pub type DirScan = (Vec<(Vec<u8>, DirEntry)>, bool);

/// The entries whose names come after `start`.
pub open spec fn names_after(
    s: Seq<(Seq<u8>, Seq<u8>)>,
    start: Option<Seq<u8>>,
) -> Seq<(Seq<u8>, Seq<u8>)> {
    match start {
        None => s,
        Some(k) => if has_key(s, k) {
            s.skip(rank(s, k) + 1)
        } else {
            s.skip(rank(s, k))
        },
    }
}

/// `out` is `raw` with every value decoded.
pub open spec fn entries_decode(
    raw: Seq<(Seq<u8>, Seq<u8>)>,
    out: Seq<(Vec<u8>, DirEntry)>,
) -> bool {
    &&& out.len() == raw.len()
    &&& forall|i: int|
        0 <= i < raw.len() ==> out[i].0@ == (#[trigger] raw[i]).0 && parse_entry(raw[i].1) == Ok::<
            DirEntry,
            CodecError,
        >(out[i].1)
}

/// Some value of `raw` does not decode.
pub open spec fn some_undecodable(raw: Seq<(Seq<u8>, Seq<u8>)>) -> bool {
    exists|i: int| 0 <= i < raw.len() && parse_entry((#[trigger] raw[i]).1) is Err
}

/// Scan directory entries in name order (bounded by `limit`), from behind
/// `start_after` on.
pub fn scan<P: ObjectProvider>(
    dir_root: ChunkId,
    start_after: Option<&[u8]>,
    limit: usize,
    order: u16,
    max_fanout: u32,
    provider: &P,
) -> (r: Result<DirScan, BTreeError>)
    ensures
        forall|h: nat, s: Seq<(Seq<u8>, Seq<u8>)>|
            trusty(provider) && (limit < usize::MAX || s.len() < usize::MAX) && #[trigger] lists(
                provider.payloads(),
                dir_root@,
                order,
                max_fanout,
                h,
                s,
            ) ==> {
                let all = names_after(s, opt_slice(start_after));
                let shown = first_of(all, limit as nat);
                match r {
                    Ok(o) => entries_decode(shown, o.0@) && o.1 == (all.len() > limit),
                    Err(_) => provider.may_fail() || h > max_height() || some_undecodable(shown),
                }
            },
{
    let fetch_limit: usize = if limit < usize::MAX {
        limit + 1
    } else {
        limit
    };
    let (entries, has_more, _) = match index::scan(
        dir_root,
        start_after,
        None,
        fetch_limit,
        order,
        max_fanout,
        provider,
    ) {
        Ok(v) => v,
        Err(e) => return Err(e),
    };
    let ghost raw = pair_views(entries@);
    let skipped = match start_after {
        Some(k) => entries.len() > 0 && bytes_equal(&entries[0].0, k),
        None => false,
    };
    let from: usize = if skipped {
        1
    } else {
        0
    };
    let ghost rest = raw.skip(from as int);
    let ghost p = provider.payloads();
    let ghost start = opt_slice(start_after);
    proof {
        assert forall|h: nat, s: Seq<(Seq<u8>, Seq<u8>)>|
            trusty(provider) && (limit < usize::MAX || s.len() < usize::MAX) && #[trigger] lists(
                p,
                dir_root@,
                order,
                max_fanout,
                h,
                s,
            ) implies window_of(names_after(s, start), rest, has_more, limit as nat) by {
            lemma_lists_sorted(p, dir_root@, order, max_fanout, h, s);
            lemma_names_after(s, start, fetch_limit as nat, raw);
            assert(entries@.len() == raw.len());
            if entries@.len() > 0 {
                assert(raw[0].0 == entries@[0].0@);
            }
        }
    }
    let mut out: Vec<(Vec<u8>, DirEntry)> = Vec::new();
    let mut i: usize = from;
    while i < entries.len() && out.len() < limit
        invariant
            from <= i <= entries@.len(),
            raw == pair_views(entries@),
            rest == raw.skip(from as int),
            p == provider.payloads(),
            start == opt_slice(start_after),
            out@.len() == i - from,
            out@.len() <= limit,
            entries_decode(rest.take(i - from), out@),
            forall|h: nat, s: Seq<(Seq<u8>, Seq<u8>)>|
                trusty(provider) && (limit < usize::MAX || s.len() < usize::MAX) && #[trigger] lists(
                    p,
                    dir_root@,
                    order,
                    max_fanout,
                    h,
                    s,
                ) ==> window_of(names_after(s, start), rest, has_more, limit as nat),
        decreases entries@.len() - i,
    {
        let (k, v) = (&entries[i].0, &entries[i].1);
        assert(rest[i - from] == raw[i as int]);
        assert(raw[i as int] == (k@, v@));
        match DirEntry::decode(v) {
            Ok(e) => {
                let ghost had = out@;
                out.push((copy_bytes(k), e));
                proof {
                    let now = rest.take(i + 1 - from);
                    assert forall|j: int| 0 <= j < now.len() implies out@[j].0@ == (
                    #[trigger] now[j]).0 && parse_entry(now[j].1) == Ok::<DirEntry, CodecError>(
                        out@[j].1,
                    ) by {
                        if j < had.len() {
                            assert(now[j] == rest.take(i - from)[j]);
                            assert(out@[j] == had[j]);
                        }
                    }
                }
            },
            Err(e) => {
                proof {
                    assert forall|h: nat, s: Seq<(Seq<u8>, Seq<u8>)>|
                        trusty(provider) && (limit < usize::MAX || s.len() < usize::MAX)
                            && #[trigger] lists(
                            p,
                            dir_root@,
                            order,
                            max_fanout,
                            h,
                            s,
                        ) implies some_undecodable(
                        first_of(names_after(s, start), limit as nat),
                    ) by {
                        let all = names_after(s, start);
                        let shown = first_of(all, limit as nat);
                        assert(window_of(all, rest, has_more, limit as nat));
                        assert(rest[i - from] == all[i - from]);
                        assert(shown[i - from] == rest[i - from]);
                    }
                }
                return Err(BTreeError::corrupt(e));
            },
        }
        i += 1;
    }
    let more = has_more || i < entries.len();
    proof {
        assert forall|h: nat, s: Seq<(Seq<u8>, Seq<u8>)>|
            trusty(provider) && (limit < usize::MAX || s.len() < usize::MAX) && #[trigger] lists(
                p,
                dir_root@,
                order,
                max_fanout,
                h,
                s,
            ) implies ({
            let all = names_after(s, start);
            entries_decode(first_of(all, limit as nat), out@) && more == (all.len() > limit)
        }) by {
            let all = names_after(s, start);
            assert(window_of(all, rest, has_more, limit as nat));
            assert(first_of(all, limit as nat) =~= rest.take(out@.len() as int));
        }
    }
    Ok((out, more))
}

/// `rest` is the front of `all`, long enough to tell whether more than `limit`
/// entries remain.
spec fn window_of(
    all: Seq<(Seq<u8>, Seq<u8>)>,
    rest: Seq<(Seq<u8>, Seq<u8>)>,
    has_more: bool,
    limit: nat,
) -> bool {
    &&& rest.len() <= all.len()
    &&& forall|i: int| 0 <= i < rest.len() ==> #[trigger] rest[i] == all[i]
    &&& rest.len() < all.len() ==> rest.len() >= limit
    &&& (has_more || rest.len() > limit) == (all.len() > limit)
}

/// A scan that starts at `start` itself shows the entries behind it, with the
/// entry of that very name in front where there is one.
proof fn lemma_names_after(
    s: Seq<(Seq<u8>, Seq<u8>)>,
    start: Option<Seq<u8>>,
    limit: nat,
    raw: Seq<(Seq<u8>, Seq<u8>)>,
)
    requires
        sorted(s),
        raw == first_of(range_of(s, start, None), limit),
    ensures
        ({
            let all = names_after(s, start);
            let full = range_of(s, start, None);
            let cut: int = if raw.len() > 0 && start is Some && raw[0].0 == start->0 { 1 } else { 0 };
            &&& full.len() == all.len() + (if start is Some && has_key(s, start->0) { 1int } else { 0 })
            &&& raw.len() > 0 ==> (cut == 1 <==> start is Some && has_key(s, start->0))
            &&& raw.len() - cut <= all.len()
            &&& forall|i: int| cut <= i < raw.len() ==> #[trigger] raw[i] == all[i - cut]
        }),
{
    lemma_range_from(s, start);
    match start {
        None => {},
        Some(k) => {
            lemma_rank(s, k);
            let full = range_of(s, start, None);
            let r = rank(s, k);
            if full.len() > 0 {
                assert(full[0] == s[r]);
            }
        },
    }
}

/// Count entries.
pub fn count<P: ObjectProvider>(
    dir_root: ChunkId,
    order: u16,
    max_fanout: u32,
    provider: &P,
) -> (r: Result<u64, BTreeError>)
    ensures
        dir_root@ == zero_id() ==> r == Ok::<u64, BTreeError>(0),
        forall|h: nat, s: Seq<(Seq<u8>, Seq<u8>)>|
            s.len() <= usize::MAX && trusty(provider) && #[trigger] lists(
                provider.payloads(),
                dir_root@,
                order,
                max_fanout,
                h,
                s,
            ) ==> match r {
                Ok(n) => n == s.len(),
                Err(_) => provider.may_fail() || h > max_height(),
            },
{
    index::count(dir_root, order, max_fanout, provider)
}

} // verus!
