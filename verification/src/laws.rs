//! Laws of the namespace and of the maps it is made of.

use vstd::prelude::*;

use crate::attrs::item_xattrs;
use crate::descriptor::{self_alias, Descriptor};
use crate::directory::{entry_bytes, entry_round_trip, names_after, DirEntry};
use crate::extent_tree::{extent_key_of, extent_key_order};
use crate::extents::chunk_put;
use crate::fs::{entry_at, Item, Listing, Namespace};
use crate::index::first_of;
use crate::inode::{InodeView, Timespec};
use crate::links::{link_refused, link_type, linked, moved, rename_refused, renamed};
use crate::namespace::{child_of, create_refused, created, unlink_refused, unlinked};
use crate::sorted::{already_holds, apply_ops, concat, erase, has_key, lemma_apply_noop,
    lemma_apply_sorted, lemma_concat_one, lemma_concat_split, lemma_erase_sorted, lemma_lookup_apply,
    lemma_lookup_erase, lemma_lookup_upsert, lemma_rank, lemma_upsert_sorted, lookup, rank, sorted,
    upsert};

verus! {

/// Inserting a key makes it found with its value, and leaves every other key as it
/// was.
pub proof fn insert_is_found(s: Listing, k: Seq<u8>, v: Seq<u8>, q: Seq<u8>)
    requires
        sorted(s),
    ensures
        lookup(upsert(s, k, v), k) == Some(v),
        q != k ==> lookup(upsert(s, k, v), q) == lookup(s, q),
        sorted(upsert(s, k, v)),
{
    lemma_lookup_upsert(s, k, v, k);
    lemma_lookup_upsert(s, k, v, q);
    lemma_upsert_sorted(s, k, v);
}

/// Removing a key makes it absent, and leaves every other key as it was.
pub proof fn remove_is_absent(s: Listing, k: Seq<u8>, q: Seq<u8>)
    requires
        sorted(s),
    ensures
        lookup(erase(s, k), k) is None,
        q != k ==> lookup(erase(s, k), q) == lookup(s, q),
        sorted(erase(s, k)),
{
    lemma_lookup_erase(s, k, k);
    lemma_lookup_erase(s, k, q);
    lemma_erase_sorted(s, k);
}

/// The entries of every inode are in name order.
pub open spec fn in_order(n: Namespace) -> bool {
    forall|d: u64| #[trigger] n.contains_key(d) ==> sorted(n[d].entries)
}

/// A created entry is looked up under its name, every other name of the directory as
/// before.
pub proof fn create_is_looked_up(
    n: Namespace,
    parent: u64,
    name: Seq<u8>,
    ino: u64,
    v: InodeView,
    d_type: u8,
    now: Timespec,
    other: Seq<u8>,
)
    requires
        in_order(n),
        !create_refused(n, parent, name),
        !n.contains_key(ino),
    ensures
        ({
            let m = created(n, parent, name, ino, v, d_type, now);
            &&& entry_at(m[parent].entries, name) == Some(DirEntry { ino, d_type })
            &&& other != name ==> entry_at(m[parent].entries, other) == entry_at(
                n[parent].entries,
                other,
            )
            &&& m.contains_key(ino) && m[ino].inode == v
            &&& forall|d: u64| d != parent && d != ino ==> (#[trigger] m.contains_key(d)
                == n.contains_key(d)) && m[d] == n[d]
        }),
{
    let s = n[parent].entries;
    let e = DirEntry { ino, d_type };
    lemma_lookup_upsert(s, name, entry_bytes(e), name);
    lemma_lookup_upsert(s, name, entry_bytes(e), other);
    entry_round_trip(e);
}

/// An unlinked name is gone, every other name of the directory is as before.
pub proof fn unlink_is_gone(
    n: Namespace,
    parent: u64,
    name: Seq<u8>,
    rmdir: bool,
    now: Timespec,
    other: Seq<u8>,
)
    requires
        in_order(n),
        !unlink_refused(n, parent, name, rmdir),
        child_of(n, parent, name) != parent,
    ensures
        ({
            let m = unlinked(n, parent, name, rmdir, now);
            &&& entry_at(m[parent].entries, name) is None
            &&& other != name ==> entry_at(m[parent].entries, other) == entry_at(
                n[parent].entries,
                other,
            )
            &&& rmdir ==> !m.contains_key(child_of(n, parent, name))
        }),
{
    let s = n[parent].entries;
    lemma_lookup_erase(s, name, name);
    lemma_lookup_erase(s, name, other);
}

/// A renamed entry is looked up under its new name and not under its old one, every
/// other name of the two directories as before.
pub proof fn rename_moves_the_entry(
    n: Namespace,
    src_parent: u64,
    src_name: Seq<u8>,
    dst_parent: u64,
    dst_name: Seq<u8>,
    now: Timespec,
    other: Seq<u8>,
)
    requires
        in_order(n),
        !rename_refused(n, src_parent, src_name, dst_parent, dst_name),
        !(src_parent == dst_parent && src_name == dst_name),
    ensures
        ({
            let m = renamed(n, src_parent, src_name, dst_parent, dst_name, now);
            &&& entry_at(m[dst_parent].entries, dst_name) == Some(moved(n, src_parent, src_name))
            &&& entry_at(m[src_parent].entries, src_name) is None
            &&& other != src_name && other != dst_name ==> entry_at(m[src_parent].entries, other)
                == entry_at(n[src_parent].entries, other) && entry_at(m[dst_parent].entries, other)
                == entry_at(n[dst_parent].entries, other)
        }),
{
    let sp = n[src_parent].entries;
    let dp = n[dst_parent].entries;
    let e = moved(n, src_parent, src_name);
    let b = entry_bytes(e);
    entry_round_trip(e);
    if src_parent == dst_parent {
        let u = upsert(sp, dst_name, b);
        lemma_upsert_sorted(sp, dst_name, b);
        lemma_lookup_erase(u, src_name, dst_name);
        lemma_lookup_erase(u, src_name, src_name);
        lemma_lookup_erase(u, src_name, other);
        lemma_lookup_upsert(sp, dst_name, b, dst_name);
        lemma_lookup_upsert(sp, dst_name, b, other);
    } else {
        lemma_lookup_erase(sp, src_name, src_name);
        lemma_lookup_erase(sp, src_name, other);
        lemma_lookup_upsert(dp, dst_name, b, dst_name);
        lemma_lookup_upsert(dp, dst_name, b, other);
    }
}

/// A linked inode is looked up under its further name, and no inode is gone.
pub proof fn link_is_looked_up(n: Namespace, parent: u64, name: Seq<u8>, ino: u64, now: Timespec)
    requires
        in_order(n),
        !link_refused(n, parent, name, ino),
        ino != parent,
    ensures
        ({
            let m = linked(n, parent, name, ino, now);
            &&& entry_at(m[parent].entries, name) == Some(
                DirEntry { ino, d_type: link_type(n[ino].inode.data) },
            )
            &&& m.dom() == n.dom()
            &&& m[ino].entries == n[ino].entries
        }),
{
    let s = n[parent].entries;
    let e = DirEntry { ino, d_type: link_type(n[ino].inode.data) };
    lemma_lookup_upsert(s, name, entry_bytes(e), name);
    entry_round_trip(e);
    assert(linked(n, parent, name, ino, now).dom() =~= n.dom());
}

/// An extended attribute that was set is read back; one that was removed is absent.
pub proof fn xattr_reads_back(it: Item, name: Seq<u8>, value: Seq<u8>, now: Timespec, other: Seq<u8>)
    requires
        sorted(it.xattrs),
    ensures
        lookup(item_xattrs(it, upsert(it.xattrs, name, value), now).xattrs, name) == Some(value),
        lookup(item_xattrs(it, erase(it.xattrs, name), now).xattrs, name) is None,
        other != name ==> lookup(
            item_xattrs(it, upsert(it.xattrs, name, value), now).xattrs,
            other,
        ) == lookup(it.xattrs, other),
{
    insert_is_found(it.xattrs, name, value, other);
    remove_is_absent(it.xattrs, name, other);
}

/// An extent that was put is found at its offset, every other offset as before.
pub proof fn extent_is_found(s: Listing, offset: u64, bytes: Seq<u8>, other: u64)
    requires
        sorted(s),
    ensures
        lookup(upsert(s, extent_key_of(offset), bytes), extent_key_of(offset)) == Some(bytes),
        other != offset ==> lookup(
            upsert(s, extent_key_of(offset), bytes),
            extent_key_of(other),
        ) == lookup(s, extent_key_of(other)),
{
    extent_key_order(offset, other);
    insert_is_found(s, extent_key_of(offset), bytes, extent_key_of(other));
}

/// A descriptor that was put is found under its chunk's id, unless it only refers to that
/// chunk, which is then left as it was; every other chunk is found as before.
pub proof fn descriptor_reads_back(
    s: Listing,
    cid: Seq<u8>,
    d: Descriptor,
    bytes: Seq<u8>,
    other: Seq<u8>,
)
    requires
        sorted(s),
    ensures
        lookup(chunk_put(s, cid, d, bytes), cid) == if self_alias(d.form, cid) {
            lookup(s, cid)
        } else {
            Some(bytes)
        },
        other != cid ==> lookup(chunk_put(s, cid, d, bytes), other) == lookup(s, other),
{
    insert_is_found(s, cid, bytes, other);
}

/// After a batch every key of it is found as the batch says, and every other key as it was;
/// applying the batch once more changes nothing.
pub proof fn batch_is_found(s: Listing, batch: Seq<(Seq<u8>, Option<Seq<u8>>)>, q: Seq<u8>)
    requires
        sorted(s),
        sorted(batch),
    ensures
        lookup(apply_ops(s, batch), q) == match lookup(batch, q) {
            Some(op) => op,
            None => lookup(s, q),
        },
        already_holds(apply_ops(s, batch), batch),
        apply_ops(apply_ops(s, batch), batch) == apply_ops(s, batch),
{
    let t = apply_ops(s, batch);
    lemma_lookup_apply(s, batch, q);
    assert forall|i: int| 0 <= i < batch.len() implies lookup(t, (#[trigger] batch[i]).0)
        == batch[i].1 by {
        lemma_lookup_apply(s, batch, batch[i].0);
        lemma_rank(batch, batch[i].0);
    }
    lemma_apply_sorted(s, batch);
    lemma_apply_noop(t, batch);
}

/// A batch of one operation binds or removes its key, and a batch is its first operations
/// and then its last one.
pub proof fn batch_is_one_by_one(
    s: Listing,
    batch: Seq<(Seq<u8>, Option<Seq<u8>>)>,
    k: Seq<u8>,
    op: Option<Seq<u8>>,
)
    ensures
        apply_ops(s, batch.push((k, op))) == match op {
            Some(v) => upsert(apply_ops(s, batch), k, v),
            None => erase(apply_ops(s, batch), k),
        },
{
    assert(batch.push((k, op)).drop_last() =~= batch);
}

/// The pages of a directory, each read from behind the last name of the one before: up to
/// `limit` entries, until no more remain.
pub open spec fn paged(s: Listing, start: Option<Seq<u8>>, limit: nat, pages: Seq<Listing>) -> bool
    decreases pages.len(),
{
    let all = names_after(s, start);
    &&& pages.len() > 0
    &&& pages[0] == first_of(all, limit)
    &&& if all.len() > limit {
        paged(s, Some(pages[0].last().0), limit, pages.drop_first())
    } else {
        pages.len() == 1
    }
}

/// Behind the last name of a page the directory goes on where the page ends.
pub proof fn page_goes_on(s: Listing, start: Option<Seq<u8>>, limit: nat)
    requires
        sorted(s),
        0 < limit < names_after(s, start).len(),
    ensures
        names_after(s, Some(first_of(names_after(s, start), limit).last().0)) == names_after(
            s,
            start,
        ).skip(limit as int),
{
    let all = names_after(s, start);
    let from: int = match start {
        None => 0,
        Some(k) => {
            lemma_rank(s, k);
            if has_key(s, k) {
                rank(s, k) + 1
            } else {
                rank(s, k)
            }
        },
    };
    assert(all =~= s.skip(from));
    let at = from + limit - 1;
    let k = first_of(all, limit).last().0;
    assert(s[at].0 == k);
    lemma_rank(s, k);
    assert(rank(s, k) == at);
    assert(names_after(s, Some(k)) =~= all.skip(limit as int));
}

/// The pages list what comes after the start once and in order, and every page but the last
/// is full.
pub proof fn pages_list_once(
    s: Listing,
    start: Option<Seq<u8>>,
    limit: nat,
    pages: Seq<Listing>,
)
    requires
        sorted(s),
        limit > 0,
        paged(s, start, limit, pages),
    ensures
        concat(pages) == names_after(s, start),
        forall|i: int| 0 <= i < pages.len() - 1 ==> (#[trigger] pages[i]).len() == limit,
    decreases pages.len(),
{
    let all = names_after(s, start);
    let rest = pages.drop_first();
    assert(pages =~= seq![pages[0]] + rest);
    lemma_concat_split(seq![pages[0]], rest);
    lemma_concat_one(pages[0]);
    if all.len() > limit {
        page_goes_on(s, start, limit);
        pages_list_once(s, Some(pages[0].last().0), limit, rest);
        assert(concat(pages) =~= all);
        assert forall|i: int| 0 <= i < pages.len() - 1 implies (#[trigger] pages[i]).len()
            == limit by {
            if i > 0 {
                assert(pages[i] == rest[i - 1]);
            }
        }
    } else {
        assert(rest =~= Seq::empty());
        assert(concat(pages) =~= all);
    }
}

} // verus!
