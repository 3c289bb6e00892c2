//! Laws of file data: what a write, a truncation and a change of attributes leave of a file,
//! told by what is found at each offset and by the fields of its inode.

use vstd::prelude::*;

use crate::attrs::{attrs_set, AttrUpdate};
use crate::data_ops::{data_changing, data_landed, extents_room};
use crate::extent_tree::{extent_key_of, extent_key_order};
use crate::extents::{chunks_put, cut, extents_put, has_file, item_updated, region_written, resized,
    truncated, ExtentUpdate};
use crate::fs::{inode_at, lemma_ns_at, Item, Listing, Namespace};
use crate::inode::{InodeView, Timespec};
use crate::io::IoBackend;
use crate::mode::S_IFMT;
use crate::sorted::{has_key, lemma_lookup_upsert, lemma_rank, lemma_upsert_sorted, lookup, rank,
    sorted};
use crate::standing::lemma_whole_ordered;
use crate::store::Store;

verus! {

/// The descriptor of the extent that starts at the offset.
pub open spec fn extent_at(s: Listing, x: u64) -> Option<Seq<u8>> {
    lookup(s, extent_key_of(x))
}

/// The last of the updates at the offset is the one at `i`.
pub open spec fn last_update(us: Seq<ExtentUpdate>, x: u64, i: int) -> bool {
    &&& 0 <= i < us.len()
    &&& us[i].offset == x
    &&& forall|j: int| i < j < us.len() ==> (#[trigger] us[j]).offset != x
}

/// None of the updates is at the offset.
pub open spec fn untouched(us: Seq<ExtentUpdate>, x: u64) -> bool {
    forall|j: int| 0 <= j < us.len() ==> (#[trigger] us[j]).offset != x
}

/// Cutting at a size leaves the extents that start below it as they are, and none at or
/// beyond it.
pub proof fn cut_keeps_below(s: Listing, size: u64, x: u64)
    requires
        sorted(s),
    ensures
        extent_at(cut(s, size), x) == if x < size {
            extent_at(s, x)
        } else {
            None
        },
        sorted(cut(s, size)),
        forall|i: int|
            0 <= i < cut(s, size).len() ==> crate::bytes::lex_lt(
                (#[trigger] cut(s, size)[i]).0,
                extent_key_of(size),
            ),
{
    let k = extent_key_of(x);
    let t = cut(s, size);
    lemma_rank(s, extent_key_of(size));
    lemma_rank(s, k);
    extent_key_order(x, size);
    assert forall|i: int, j: int| #![trigger t[i], t[j]] 0 <= i < j < t.len() implies
        crate::bytes::lex_lt(t[i].0, t[j].0) by {
        assert(t[i] == s[i] && t[j] == s[j]);
    }
    lemma_rank(t, k);
    if has_key(s, k) {
        let i = rank(s, k);
        if x < size {
            assert(t[i] == s[i]);
        }
    }
    if has_key(t, k) {
        let j = rank(t, k);
        assert(s[j] == t[j]);
    }
    assert forall|i: int| 0 <= i < t.len() implies crate::bytes::lex_lt(
        (#[trigger] t[i]).0,
        extent_key_of(size),
    ) by {
        assert(t[i] == s[i]);
    }
}

proof fn lemma_extents_put(it: Item, us: Seq<ExtentUpdate>, now: Timespec, x: u64)
    requires
        sorted(it.entries),
    ensures
        ({
            let r = extents_put(it, us, now);
            &&& sorted(r.entries)
            &&& untouched(us, x) ==> extent_at(r.entries, x) == extent_at(it.entries, x)
            &&& forall|i: int| #[trigger]
                last_update(us, x, i) ==> extent_at(r.entries, x) == Some(us[i].bytes@)
            &&& r.xattrs == it.xattrs
            &&& r.inode == (InodeView { ctime: r.inode.ctime, ..it.inode })
            &&& r.inode.ctime == if us.len() == 0 {
                it.inode.ctime
            } else {
                now
            }
        }),
    decreases us.len(),
{
    if us.len() > 0 {
        let had = us.drop_last();
        let u = us.last();
        let p = extents_put(it, had, now);
        lemma_extents_put(it, had, now, x);
        lemma_upsert_sorted(p.entries, extent_key_of(u.offset), u.bytes@);
        lemma_lookup_upsert(p.entries, extent_key_of(u.offset), u.bytes@, extent_key_of(x));
        extent_key_order(u.offset, x);
        if untouched(us, x) {
            assert(untouched(had, x)) by {
                assert forall|j: int| 0 <= j < had.len() implies (#[trigger] had[j]).offset != x by {
                    assert(had[j] == us[j]);
                }
            }
            assert(us[us.len() - 1].offset != x);
        }
        let r = extents_put(it, us, now);
        assert forall|i: int| #[trigger] last_update(us, x, i) implies extent_at(r.entries, x)
            == Some(us[i].bytes@) by {
            if i < us.len() - 1 {
                assert(us[us.len() - 1].offset != x);
                assert(last_update(had, x, i)) by {
                    assert(had[i] == us[i]);
                    assert forall|j: int| i < j < had.len() implies (#[trigger] had[j]).offset
                        != x by {
                        assert(had[j] == us[j]);
                    }
                }
                assert(had[i] == us[i]);
            }
        }
    }
}

/// After a write of extents with a new size, the file has that size, whatever it had; no
/// extent starts at or beyond it; below it the last update of an offset is found there, and
/// where no update is, what was. Nothing else of the file changes but its times, and no
/// other inode does.
pub proof fn write_is_found(
    n: Namespace,
    ino: u64,
    us: Seq<ExtentUpdate>,
    size: u64,
    now: Timespec,
    x: u64,
)
    requires
        has_file(n, ino),
        sorted(n[ino].entries),
    ensures
        ({
            let m = region_written(n, ino, us, Some(size), now);
            let s = m[ino].entries;
            &&& m.dom() == n.dom()
            &&& forall|o: u64| o != ino ==> #[trigger] m[o] == n[o]
            &&& m[ino].inode.size == size
            &&& x >= size ==> extent_at(s, x) is None
            &&& x < size && untouched(us, x) ==> extent_at(s, x) == extent_at(n[ino].entries, x)
            &&& forall|i: int| #[trigger]
                last_update(us, x, i) && x < size ==> extent_at(s, x) == Some(us[i].bytes@)
            &&& sorted(s)
            &&& forall|i: int|
                0 <= i < s.len() ==> crate::bytes::lex_lt((#[trigger] s[i]).0, extent_key_of(size))
            &&& m[ino].xattrs == n[ino].xattrs
            &&& m[ino].inode.mtime == now
            &&& us.len() > 0 ==> m[ino].inode.ctime == now
            &&& m[ino].inode == (InodeView {
                size: m[ino].inode.size,
                mtime: m[ino].inode.mtime,
                ctime: m[ino].inode.ctime,
                ..n[ino].inode
            })
        }),
{
    lemma_extents_put(n[ino], us, now, x);
    let it = if us.len() == 0 {
        n[ino]
    } else {
        extents_put(n[ino], us, now)
    };
    cut_keeps_below(it.entries, size, x);
    assert(region_written(n, ino, us, Some(size), now).dom() =~= n.dom());
}

/// A write without a new size keeps the size, and every extent that it does not replace.
pub proof fn write_in_place_is_found(
    n: Namespace,
    ino: u64,
    us: Seq<ExtentUpdate>,
    now: Timespec,
    x: u64,
)
    requires
        has_file(n, ino),
        sorted(n[ino].entries),
    ensures
        ({
            let m = region_written(n, ino, us, None, now);
            &&& m.dom() == n.dom()
            &&& forall|o: u64| o != ino ==> #[trigger] m[o] == n[o]
            &&& untouched(us, x) ==> extent_at(m[ino].entries, x) == extent_at(n[ino].entries, x)
            &&& forall|i: int| #[trigger]
                last_update(us, x, i) ==> extent_at(m[ino].entries, x) == Some(us[i].bytes@)
            &&& m[ino].xattrs == n[ino].xattrs
            &&& us.len() > 0 ==> m[ino].inode.ctime == now
            &&& m[ino].inode == (InodeView { ctime: m[ino].inode.ctime, ..n[ino].inode })
        }),
{
    lemma_extents_put(n[ino], us, now, x);
    assert(region_written(n, ino, us, None, now).dom() =~= n.dom());
}

/// The size of the inode that is read back behind a committed write is the one given, and
/// the extents that are then read are those below it.
pub proof fn committed_write_is_read<B: IoBackend>(
    a: Store<B>,
    mid: Store<B>,
    mask: u64,
    more: nat,
    ino: u64,
    us: Seq<ExtentUpdate>,
    size: u64,
    now: Timespec,
    h: nat,
    x: u64,
)
    requires
        data_landed(
            a,
            mid,
            mask,
            more,
            extents_room(a, ino, us, now),
            region_written(a.ns(), ino, us, Some(size), now),
            chunks_put(a.chunks(), us),
        ),
        data_changing(a, mid, h),
        extents_room(a, ino, us, now),
        has_file(a.ns(), ino),
    ensures
        ({
            let f = mid.config.max_fanout;
            let s = mid.ns()[ino].entries;
            let v = inode_at(mid.objects(), mid.root@.inode_index_root, f, ino);
            &&& v is Some && v->0.size == size && v->0.mtime == now
            &&& v->0.nlink == a.ns()[ino].inode.nlink && v->0.mode == a.ns()[ino].inode.mode
            &&& v->0.uid == a.ns()[ino].inode.uid && v->0.gid == a.ns()[ino].inode.gid
            &&& x >= size ==> extent_at(s, x) is None
            &&& x < size && untouched(us, x) ==> extent_at(s, x) == extent_at(
                a.ns()[ino].entries,
                x,
            )
            &&& forall|i: int| #[trigger]
                last_update(us, x, i) && x < size ==> extent_at(s, x) == Some(us[i].bytes@)
        }),
{
    assert(mid.whole(h + more));
    lemma_whole_ordered(a, h);
    write_is_found(a.ns(), ino, us, size, now, x);
    lemma_ns_at(
        mid.objects(),
        mid.root@.inode_index_root,
        mid.config.max_fanout,
        h + more,
        ino,
    );
}

/// A chunk whose descriptor an update gives is found in the index with the last one that is
/// not a reference to the chunk itself; every other chunk as before.
pub proof fn written_chunks_are_found(s: Listing, us: Seq<ExtentUpdate>, cid: Seq<u8>)
    requires
        sorted(s),
    ensures
        sorted(chunks_put(s, us)),
        (forall|i: int| 0 <= i < us.len() ==> (#[trigger] us[i]).content_id@ != cid) ==> lookup(
            chunks_put(s, us),
            cid,
        ) == lookup(s, cid),
        forall|i: int|
            #![trigger us[i]]
            0 <= i < us.len() && us[i].content_id@ == cid && !crate::descriptor::self_alias(
                us[i].descriptor.form,
                cid,
            ) && (forall|j: int| i < j < us.len() ==> (#[trigger] us[j]).content_id@ != cid)
                ==> lookup(chunks_put(s, us), cid) == Some(us[i].bytes@),
    decreases us.len(),
{
    if us.len() > 0 {
        let had = us.drop_last();
        let u = us.last();
        let t = chunks_put(s, had);
        written_chunks_are_found(s, had, cid);
        lemma_upsert_sorted(t, u.content_id@, u.bytes@);
        lemma_lookup_upsert(t, u.content_id@, u.bytes@, cid);
        assert forall|i: int| 0 <= i < had.len() implies #[trigger] had[i] == us[i] by {}
        if forall|i: int| 0 <= i < us.len() ==> (#[trigger] us[i]).content_id@ != cid {
            assert(us[us.len() - 1].content_id@ != cid);
            assert forall|i: int| 0 <= i < had.len() implies (#[trigger] had[i]).content_id@
                != cid by {
                assert(had[i] == us[i]);
            }
        }
        assert forall|i: int|
            #![trigger us[i]]
            0 <= i < us.len() && us[i].content_id@ == cid && !crate::descriptor::self_alias(
                us[i].descriptor.form,
                cid,
            ) && (forall|j: int| i < j < us.len() ==> (#[trigger] us[j]).content_id@ != cid) implies lookup(
            chunks_put(s, us),
            cid,
        ) == Some(us[i].bytes@) by {
            if i < us.len() - 1 {
                assert(us[us.len() - 1].content_id@ != cid);
                assert(had[i] == us[i]);
                assert forall|j: int| i < j < had.len() implies (#[trigger] had[j]).content_id@
                    != cid by {
                    assert(had[j] == us[j]);
                }
            }
        }
    }
}

/// A truncated file has the new size and no extent at or beyond it; below it every extent is
/// as it was, but for the shortened one. Its other attributes stay, its times are now.
pub proof fn truncate_is_found(
    it: Item,
    size: u64,
    trim: Option<ExtentUpdate>,
    now: Timespec,
    x: u64,
)
    requires
        sorted(it.entries),
        trim matches Some(u) ==> u.offset < size,
    ensures
        ({
            let r = truncated(it, size, trim, now);
            &&& r.inode.size == size
            &&& x >= size ==> extent_at(r.entries, x) is None
            &&& x < size && !(trim matches Some(u) && u.offset == x) ==> extent_at(r.entries, x)
                == extent_at(it.entries, x)
            &&& trim matches Some(u) ==> (u.offset == x ==> extent_at(r.entries, x) == Some(
                u.bytes@,
            ))
            &&& r.xattrs == it.xattrs
            &&& r.inode.mtime == now && r.inode.ctime == now
            &&& r.inode == (InodeView { size, mtime: now, ctime: now, ..it.inode })
        }),
{
    cut_keeps_below(it.entries, size, x);
    if let Some(u) = trim {
        lemma_lookup_upsert(cut(it.entries, size), extent_key_of(u.offset), u.bytes@, extent_key_of(x));
        extent_key_order(u.offset, x);
    }
}

/// Extending a file leaves every extent as it was.
pub proof fn extending_keeps_extents(it: Item, size: u64, now: Timespec, x: u64)
    requires
        sorted(it.entries),
        x < size,
    ensures
        extent_at(truncated(it, size, None, now).entries, x) == extent_at(it.entries, x),
        extent_at(resized(it, size, now).entries, x) == extent_at(it.entries, x),
{
    cut_keeps_below(it.entries, size, x);
}

/// An update of attributes sets each one that it gives and keeps each one that it does not:
/// of the mode the permission bits, never the type. The change time is now.
pub proof fn attributes_are_set(v: InodeView, u: AttrUpdate, now: Timespec)
    ensures
        ({
            let r = attrs_set(v, u, now);
            &&& r.mode & S_IFMT == v.mode & S_IFMT
            &&& u.mode matches Some(m) ==> r.mode & 0o7777 == m & 0o7777
            &&& u.mode is None ==> r.mode == v.mode
            &&& u.uid matches Some(x) ==> r.uid == x
            &&& u.uid is None ==> r.uid == v.uid
            &&& u.gid matches Some(x) ==> r.gid == x
            &&& u.gid is None ==> r.gid == v.gid
            &&& u.atime matches Some(t) ==> r.atime == t
            &&& u.atime is None ==> r.atime == v.atime
            &&& u.mtime matches Some(t) ==> r.mtime == t
            &&& u.mtime is None ==> r.mtime == v.mtime
            &&& r.ctime == now
            &&& r.size == v.size && r.nlink == v.nlink && r.rdev == v.rdev
            &&& r.flags == v.flags && r.crtime == v.crtime
            &&& r.data == v.data && r.data_kind == v.data_kind && r.xattr_root == v.xattr_root
        }),
{
    let old = v.mode;
    if let Some(m) = u.mode {
        assert(((old & 0o170000u32) | (m & 0o7777u32)) & 0o170000u32 == old & 0o170000u32)
            by (bit_vector);
        assert(((old & 0o170000u32) | (m & 0o7777u32)) & 0o7777u32 == m & 0o7777u32) by (bit_vector);
    }
}

/// An update with a size gives the inode that size, and one without keeps it; the extents
/// below the size stay but for the shortened one, and those beyond it go. A size that the
/// file has already changes no extent.
pub proof fn update_is_found(
    it: Item,
    u: AttrUpdate,
    trim: Option<ExtentUpdate>,
    now: Timespec,
    x: u64,
)
    requires
        sorted(it.entries),
        trim matches Some(t) ==> (u.size matches Some(s) ==> t.offset < s),
    ensures
        ({
            let r = item_updated(it, u, trim, now);
            &&& u.size matches Some(s) ==> r.inode.size == s
            &&& u.size is None ==> r.inode.size == it.inode.size && r.entries == it.entries
            &&& u.size == Some(it.inode.size) ==> r.entries == it.entries
            &&& u.size matches Some(s) ==> (s != it.inode.size ==> {
                &&& x >= s ==> extent_at(r.entries, x) is None
                &&& x < s && !(trim matches Some(t) && t.offset == x) ==> extent_at(r.entries, x)
                    == extent_at(it.entries, x)
                &&& trim matches Some(t) ==> (t.offset == x ==> extent_at(r.entries, x) == Some(
                    t.bytes@,
                ))
                &&& u.mtime is None ==> r.inode.mtime == now
            })
            &&& r.xattrs == it.xattrs
            &&& r.inode.ctime == now
            &&& r.inode.mode & S_IFMT == it.inode.mode & S_IFMT
            &&& u.mode matches Some(m) ==> r.inode.mode & 0o7777 == m & 0o7777
            &&& u.mode is None ==> r.inode.mode == it.inode.mode
            &&& r.inode.uid == (match u.uid {
                Some(v) => v,
                None => it.inode.uid,
            })
            &&& r.inode.gid == (match u.gid {
                Some(v) => v,
                None => it.inode.gid,
            })
            &&& r.inode.nlink == it.inode.nlink && r.inode.data == it.inode.data
            &&& u.mtime matches Some(t) ==> r.inode.mtime == t
            &&& u.atime matches Some(t) ==> r.inode.atime == t
            &&& u.atime is None ==> r.inode.atime == it.inode.atime
        }),
{
    if let Some(s) = u.size {
        if s != it.inode.size {
            truncate_is_found(it, s, trim, now, x);
            attributes_are_set(truncated(it, s, trim, now).inode, u, now);
        }
    }
    attributes_are_set(it.inode, u, now);
}

} // verus!
