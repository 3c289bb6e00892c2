//! Renames and hard links inside a transaction.

use vstd::prelude::*;

use crate::bytes::bytes_equal;
use crate::chunk::ChunkId;
use crate::directory::{entry_bytes, DirEntry};
use crate::dt::{DT_LNK, DT_REG, DT_UNKNOWN};
use crate::error::StoreError;
use crate::fs::{data_root, entries_ok, entry_at, inode_fits, item_of, lemma_fits_grows,
    lemma_fs_grows, lemma_tree_grows, lemma_tree_sorted, listing, tree_ok, Item, Namespace};
use crate::index::ObjectProvider;
use crate::inode::{inode_ok, DataView, Inode, InodeData, Timespec};
use crate::io::IoBackend;
use crate::namespace::{strained, dir_bind, dir_editing, dir_find, dir_unbind, drop_link, edited, editing,
    find_dir, has_dir, is_dir, is_occupied, lemma_added, lemma_edit_on, lemma_editing, link_dropped,
    objects_added, occupied, one_less, one_more, put_dir, put_links, relinked, relisted, time_ok,
    valid_name, RenameOutcome};
use crate::sorted::{erase, has_key, lemma_erase_sorted, lemma_rank, lemma_rank_is, rank, sorted, upsert};
use crate::store::Store;
use crate::transaction::Tx;

verus! {

// ---------------------------------------------------------------------------
// What a rename does
// ---------------------------------------------------------------------------

/// The entry that moves.
pub open spec fn moved(n: Namespace, parent: u64, name: Seq<u8>) -> DirEntry {
    entry_at(n[parent].entries, name)->0
}

/// The inode that the destination name stood for, if another than the one that
/// moves.
pub open spec fn replaced(
    n: Namespace,
    src_parent: u64,
    src_name: Seq<u8>,
    dst_parent: u64,
    dst_name: Seq<u8>,
) -> Option<u64> {
    match entry_at(n[dst_parent].entries, dst_name) {
        Some(e) => if e.ino != moved(n, src_parent, src_name).ino {
            Some(e.ino)
        } else {
            None
        },
        None => None,
    }
}

/// `dst` cannot be replaced by `src`: only a directory replaces a directory,
/// and only an empty one is replaced.
pub open spec fn replace_refused(src: Item, dst: Item) -> bool {
    ||| is_dir(src.inode) != is_dir(dst.inode)
    ||| is_dir(src.inode) && occupied(dst)
}

/// A rename cannot be done.
pub open spec fn rename_refused(
    n: Namespace,
    src_parent: u64,
    src_name: Seq<u8>,
    dst_parent: u64,
    dst_name: Seq<u8>,
) -> bool {
    ||| !valid_name(src_name)
    ||| !valid_name(dst_name)
    ||| !has_dir(n, src_parent)
    ||| entry_at(n[src_parent].entries, src_name) is None
    ||| !(src_parent == dst_parent && src_name == dst_name) && {
        ||| !n.contains_key(moved(n, src_parent, src_name).ino)
        ||| !has_dir(n, dst_parent)
        ||| replaced(n, src_parent, src_name, dst_parent, dst_name) matches Some(d) && (
        !n.contains_key(d) || replace_refused(n[moved(n, src_parent, src_name).ino], n[d]))
    }
}

/// The namespace without what the destination name stood for.
pub open spec fn displaced(n: Namespace, d: Option<u64>) -> Namespace {
    match d {
        None => n,
        Some(d) => if is_dir(n[d].inode) {
            n.remove(d)
        } else {
            link_dropped(n, d, n[d])
        },
    }
}

/// The namespace after a rename. A name renamed onto itself stays. Within one
/// directory the entry moves from one name to the other; between two, it leaves
/// one and enters the other, and a directory counts in the link counts of both.
pub open spec fn renamed(
    n: Namespace,
    src_parent: u64,
    src_name: Seq<u8>,
    dst_parent: u64,
    dst_name: Seq<u8>,
    now: Timespec,
) -> Namespace {
    if src_parent == dst_parent && src_name == dst_name {
        n
    } else {
        let e = moved(n, src_parent, src_name);
        let rest = displaced(n, replaced(n, src_parent, src_name, dst_parent, dst_name));
        let sp = n[src_parent];
        let dp = n[dst_parent];
        if src_parent == dst_parent {
            rest.insert(
                src_parent,
                relisted(
                    sp,
                    erase(upsert(sp.entries, dst_name, entry_bytes(e)), src_name),
                    sp.inode.nlink,
                    now,
                ),
            )
        } else {
            let with_dir = is_dir(n[e.ino].inode);
            rest.insert(
                src_parent,
                relisted(
                    sp,
                    erase(sp.entries, src_name),
                    if with_dir {
                        one_less(sp.inode.nlink)
                    } else {
                        sp.inode.nlink
                    },
                    now,
                ),
            ).insert(
                dst_parent,
                relisted(
                    dp,
                    upsert(dp.entries, dst_name, entry_bytes(e)),
                    if with_dir {
                        one_more(dp.inode.nlink)
                    } else {
                        dp.inode.nlink
                    },
                    now,
                ),
            )
        }
    }
}

/// Binding a key that was just unbound is binding it over what was there.
pub proof fn lemma_rebind<V>(s: Seq<(Seq<u8>, V)>, k: Seq<u8>, v: V)
    requires
        sorted(s),
    ensures
        upsert(erase(s, k), k, v) == upsert(s, k, v),
{
    lemma_rank(s, k);
    lemma_erase_sorted(s, k);
    if has_key(s, k) {
        let e = erase(s, k);
        let r = rank(s, k);
        crate::bytes::lemma_lex_order();
        assert(forall|i: int| 0 <= i < r ==> e[i] == s[i]);
        assert(forall|i: int| r <= i < e.len() ==> e[i] == s[i + 1]);
        lemma_rank(e, k);
        lemma_rank_is(e, k, r);
        assert(!has_key(e, k)) by {
            if has_key(e, k) {
                assert(e[r].0 == k);
                assert(s[r + 1].0 == k);
            }
        }
        assert(upsert(e, k, v) =~= upsert(s, k, v));
    }
}

// ---------------------------------------------------------------------------
// Rename
// ---------------------------------------------------------------------------

/// What a rename works with.
struct RenamePlan {
    sp: Inode,
    src_root: ChunkId,
    dp: Inode,
    dst_root: ChunkId,
    entry: DirEntry,
    with_dir: bool,
    displaced: Option<(u64, Inode)>,
}

/// The plan is that of the rename.
spec fn planned<B: IoBackend>(
    tx: Tx<B>,
    o: RenamePlan,
    src_parent: u64,
    src_name: Seq<u8>,
    dst_parent: u64,
    dst_name: Seq<u8>,
    h: nat,
) -> bool {
    let n = tx.ns();
    let p = tx.objects.payloads();
    &&& !rename_refused(n, src_parent, src_name, dst_parent, dst_name)
    &&& o.entry == moved(n, src_parent, src_name)
    &&& o.with_dir == is_dir(n[o.entry.ino].inode)
    &&& inode_fits(p, o.sp@, tx.max_fanout, h)
    &&& n[src_parent] == item_of(p, o.sp@, tx.max_fanout)
    &&& inode_fits(p, o.dp@, tx.max_fanout, h)
    &&& n[dst_parent] == item_of(p, o.dp@, tx.max_fanout)
    &&& match o.displaced {
        None => replaced(n, src_parent, src_name, dst_parent, dst_name) is None,
        Some((d, t)) => {
            &&& replaced(n, src_parent, src_name, dst_parent, dst_name) == Some(d)
            &&& inode_fits(p, t@, tx.max_fanout, h)
            &&& n[d] == item_of(p, t@, tx.max_fanout)
        },
    }
}

spec fn plan_ok(o: RenamePlan) -> bool {
    &&& inode_ok(o.sp@) && o.sp.data is Directory && o.src_root@ == data_root(o.sp@.data)
    &&& inode_ok(o.dp@) && o.dp.data is Directory && o.dst_root@ == data_root(o.dp@.data)
    &&& o.displaced matches Some((_, t)) ==> inode_ok(t@)
}

/// The entry that the destination name stands for, where the rename would
/// displace it; an error where it may not.
fn find_displaced<B: IoBackend>(
    tx: &Tx<'_, B>,
    dst_root: ChunkId,
    dst_name: &[u8],
    entry: DirEntry,
    with_dir: bool,
) -> (r: Result<Option<(u64, Inode)>, StoreError>)
    ensures
        r matches Ok(Some(o)) ==> inode_ok(o.1@),
        forall|h: nat| #[trigger]
            editing(*tx, *tx, h) && dir_editing(*tx, *tx, dst_root@, h) ==> {
                let there = entry_at(
                    listing(tx.objects.payloads(), dst_root@, tx.max_fanout),
                    dst_name@,
                );
                match r {
                    Ok(None) => there is None || there->0.ino == entry.ino,
                    Ok(Some(o)) => {
                        &&& there is Some && there->0.ino == o.0 && o.0 != entry.ino
                        &&& tx.ns().contains_key(o.0)
                        &&& inode_fits(tx.objects.payloads(), o.1@, tx.max_fanout, h)
                        &&& tx.ns()[o.0] == item_of(
                            tx.objects.payloads(),
                            o.1@,
                            tx.max_fanout,
                        )
                        &&& is_dir(tx.ns()[o.0].inode) == with_dir
                        &&& !(with_dir && occupied(tx.ns()[o.0]))
                    },
                    Err(_) => strained(*tx, h) || {
                        &&& there is Some && there->0.ino != entry.ino
                        &&& !tx.ns().contains_key(there->0.ino) || with_dir != is_dir(
                            tx.ns()[there->0.ino].inode,
                        ) || with_dir && occupied(tx.ns()[there->0.ino])
                    },
                }
            },
{
    let there = match dir_find(tx, dst_root, dst_name) {
        Ok(Some(e)) => e,
        Ok(None) => return Ok(None),
        Err(e) => return Err(e),
    };
    if there.ino == entry.ino {
        return Ok(None);
    }
    proof {
        assert forall|h: nat| #[trigger] editing(*tx, *tx, h) implies tx.reads(h) by {}
    }
    let target = match Store::inode_for_tx(tx, there.ino) {
        Ok(v) => v,
        Err(e) => return Err(e),
    };
    let dst_is_dir = target.is_dir();
    if with_dir && !dst_is_dir {
        return Err(StoreError::Invariant("cannot rename dir over file".to_string()));
    }
    if !with_dir && dst_is_dir {
        return Err(StoreError::Invariant("cannot rename file over dir".to_string()));
    }
    if with_dir {
        let full = is_occupied(tx, &target);
        proof {
            assert forall|h: nat| #[trigger] editing(*tx, *tx, h) implies inode_fits(
                tx.objects.payloads(),
                target@,
                tx.max_fanout,
                h,
            ) by {
                assert(tx.reads(h));
            }
        }
        match full {
            Ok(false) => {},
            Ok(true) => return Err(StoreError::Invariant("directory not empty".to_string())),
            Err(e) => return Err(e),
        }
    }
    Ok(Some((there.ino, target)))
}

/// The checks of a rename.
#[verifier::rlimit(40)]
#[verifier::spinoff_prover]
fn plan_rename<B: IoBackend>(
    tx: &Tx<'_, B>,
    src_parent: u64,
    src_name: &[u8],
    dst_parent: u64,
    dst_name: &[u8],
) -> (r: Result<RenamePlan, StoreError>)
    requires
        valid_name(src_name@),
        valid_name(dst_name@),
        !(src_parent == dst_parent && src_name@ == dst_name@),
    ensures
        r matches Ok(o) ==> plan_ok(o),
        forall|h: nat| #[trigger]
            editing(*tx, *tx, h) ==> match r {
                Ok(o) => planned(*tx, o, src_parent, src_name@, dst_parent, dst_name@, h),
                Err(_) => strained(*tx, h) || rename_refused(
                    tx.ns(),
                    src_parent,
                    src_name@,
                    dst_parent,
                    dst_name@,
                ),
            },
{
    proof {
        assert forall|h: nat| #[trigger] editing(*tx, *tx, h) implies tx.reads(h) by {}
    }
    let (sp, src_root) = match find_dir(tx, src_parent) {
        Ok(v) => v,
        Err(e) => return Err(e),
    };
    let found = dir_find(tx, src_root, src_name);
    proof {
        assert forall|h: nat| #[trigger] editing(*tx, *tx, h) implies dir_editing(
            *tx,
            *tx,
            src_root@,
            h,
        ) by {
            assert(tx.reads(h));
        }
    }
    let entry = match found {
        Ok(Some(e)) => e,
        Ok(None) => return Err(StoreError::Invariant("no such entry".to_string())),
        Err(e) => return Err(e),
    };
    let src_inode = match Store::inode_for_tx(tx, entry.ino) {
        Ok(v) => v,
        Err(e) => return Err(e),
    };
    let with_dir = src_inode.is_dir();
    let (dp, dst_root) = match find_dir(tx, dst_parent) {
        Ok(v) => v,
        Err(e) => return Err(e),
    };
    let over = find_displaced(tx, dst_root, dst_name, entry, with_dir);
    proof {
        assert forall|h: nat| #[trigger] editing(*tx, *tx, h) implies dir_editing(
            *tx,
            *tx,
            dst_root@,
            h,
        ) by {
            assert(tx.reads(h));
        }
    }
    match over {
        Ok(displaced) => Ok(RenamePlan { sp, src_root, dp, dst_root, entry, with_dir, displaced }),
        Err(e) => Err(e),
    }
}

/// Drop what the destination name stood for.
fn displace<B: IoBackend>(tx: &mut Tx<'_, B>, ino: u64, inode: Inode) -> (r: Result<(), StoreError>)
    requires
        inode_ok(inode@),
    ensures
        edited(*old(tx), *final(tx)),
        forall|h: nat| #[trigger]
            editing(*old(tx), *final(tx), h) && inode_fits(
                old(tx).objects.payloads(),
                inode@,
                old(tx).max_fanout,
                h,
            ) && old(tx).ns()[ino] == item_of(
                old(tx).objects.payloads(),
                inode@,
                old(tx).max_fanout,
            ) ==> match r {
                Ok(_) => {
                    &&& final(tx).whole(h + 1)
                    &&& final(tx).ns() == displaced(old(tx).ns(), Some(ino))
                },
                Err(_) => strained(*old(tx), h),
            },
{
    if inode.is_dir() {
        let ghost was = *tx;
        let out = Store::remove_inode_in_tx(tx, ino);
        proof {
            let now = *tx;
            assert forall|h: nat| #[trigger] editing(was, now, h) && out is Ok implies now.whole(
                h + 1,
            ) by {
                lemma_fs_grows(
                    now.objects.payloads(),
                    now.objects.payloads(),
                    now.root.inode_index_root@,
                    now.max_fanout,
                    h,
                    h + 1,
                );
            }
        }
        out
    } else {
        drop_link(tx, ino, inode)
    }
}

/// Bind the destination name of a rename, over what it stood for.
fn bind_over<B: IoBackend>(
    tx: &mut Tx<'_, B>,
    dir_root: ChunkId,
    name: &[u8],
    entry: DirEntry,
    over: bool,
) -> (r: Result<ChunkId, StoreError>)
    requires
        name@.len() <= u16::MAX,
    ensures
        objects_added(*old(tx), *final(tx)),
        forall|h: nat| #[trigger]
            dir_editing(*old(tx), *final(tx), dir_root@, h) ==> match r {
                Ok(id) => {
                    let s = listing(old(tx).objects.payloads(), dir_root@, old(tx).max_fanout);
                    let p = final(tx).objects.payloads();
                    &&& tree_ok(p, id@, final(tx).max_fanout, h + 1)
                    &&& listing(p, id@, final(tx).max_fanout) == upsert(
                        s,
                        name@,
                        entry_bytes(entry),
                    )
                    &&& entries_ok(listing(p, id@, final(tx).max_fanout))
                },
                Err(_) => strained(*old(tx), h),
            },
{
    if !over {
        return dir_bind(tx, dir_root, name, entry);
    }
    let ghost was = *tx;
    let cleared = dir_unbind(tx, dir_root, name);
    let ghost mid = *tx;
    let root = match cleared {
        Ok(id) => id,
        Err(e) => return Err(e),
    };
    let out = dir_bind(tx, root, name, entry);
    proof {
        let now = *tx;
        assert forall|h: nat| #[trigger] dir_editing(was, now, dir_root@, h) implies dir_editing(
            was,
            mid,
            dir_root@,
            h,
        ) && dir_editing(mid, now, root@, h) && upsert(
            listing(mid.objects.payloads(), root@, mid.max_fanout),
            name@,
            entry_bytes(entry),
        ) == upsert(
            listing(was.objects.payloads(), dir_root@, was.max_fanout),
            name@,
            entry_bytes(entry),
        ) by {
            crate::index_edit::lemma_clash_free_subset(
                mid.objects.payloads(),
                now.objects.payloads(),
            );
            assert(dir_editing(was, mid, dir_root@, h));
            lemma_tree_sorted(was.objects.payloads(), dir_root@, was.max_fanout, h);
            lemma_rebind(
                listing(was.objects.payloads(), dir_root@, was.max_fanout),
                name@,
                entry_bytes(entry),
            );
        }
    }
    out
}

/// Move an entry from one name of a directory to another.
#[verifier::rlimit(40)]
#[verifier::spinoff_prover]
fn move_within<B: IoBackend>(
    tx: &mut Tx<'_, B>,
    parent: u64,
    inode: Inode,
    dir_root: ChunkId,
    src_name: &[u8],
    dst_name: &[u8],
    entry: DirEntry,
    over: bool,
    now: Timespec,
) -> (r: Result<(), StoreError>)
    requires
        time_ok(now),
        dst_name@.len() <= u16::MAX,
        inode.data is Directory,
        dir_root@ == data_root(inode@.data),
    ensures
        edited(*old(tx), *final(tx)),
        forall|h: nat| #[trigger]
            editing(*old(tx), *final(tx), h) && inode_fits(
                old(tx).objects.payloads(),
                inode@,
                old(tx).max_fanout,
                h,
            ) ==> match r {
                Ok(_) => {
                    let it = item_of(old(tx).objects.payloads(), inode@, old(tx).max_fanout);
                    &&& final(tx).whole(h + 2)
                    &&& final(tx).ns() == old(tx).ns().insert(
                        parent,
                        relisted(
                            it,
                            erase(upsert(it.entries, dst_name@, entry_bytes(entry)), src_name@),
                            it.inode.nlink,
                            now,
                        ),
                    )
                },
                Err(_) => strained(*old(tx), h + 1),
            },
{
    let ghost was = *tx;
    let ghost p0 = tx.objects.payloads();
    let ghost f = tx.max_fanout;
    let bound = bind_over(tx, dir_root, dst_name, entry, over);
    let ghost t1 = *tx;
    proof {
        assert forall|h: nat| #[trigger] editing(was, t1, h) && inode_fits(
            p0,
            inode@,
            f,
            h,
        ) implies dir_editing(was, t1, dir_root@, h) by {}
    }
    let root = match bound {
        Ok(id) => id,
        Err(e) => return Err(e),
    };
    let cleared = dir_unbind(tx, root, src_name);
    let ghost t2 = *tx;
    proof {
        assert forall|h: nat| #[trigger] editing(was, t2, h) && inode_fits(
            p0,
            inode@,
            f,
            h,
        ) implies dir_editing(t1, t2, root@, h + 1) by {
            lemma_editing(was, t1, t2, h);
        }
    }
    let root2 = match cleared {
        Ok(id) => id,
        Err(e) => return Err(e),
    };
    let nlink: u32 = inode.nlink;
    let done = put_dir(tx, parent, inode, root2, nlink, now);
    proof {
        let t3 = *tx;
        assert forall|h: nat| #[trigger] editing(was, t3, h) && inode_fits(
            p0,
            inode@,
            f,
            h,
        ) implies match done {
            Ok(_) => {
                let it = item_of(p0, inode@, f);
                &&& t3.whole(h + 2)
                &&& t3.ns() == was.ns().insert(
                    parent,
                    relisted(
                        it,
                        erase(upsert(it.entries, dst_name@, entry_bytes(entry)), src_name@),
                        it.inode.nlink,
                        now,
                    ),
                )
            },
            Err(_) => strained(was, h + 1),
        } by {
            lemma_editing(was, t2, t3, h);
            lemma_editing(was, t1, t3, h);
            assert(dir_editing(t1, t2, root@, h + 1));
            lemma_added(was, t2, h, h + 1);
            lemma_edit_on(was, t2, t3, h, h + 1);
            lemma_fits_grows(p0, t2.objects.payloads(), inode@, f, h, h + 1);
        }
    }
    done
}

/// Move an entry from one directory to another.
#[verifier::rlimit(80)]
#[verifier::spinoff_prover]
fn move_across<B: IoBackend>(
    tx: &mut Tx<'_, B>,
    src_parent: u64,
    src_name: &[u8],
    dst_parent: u64,
    dst_name: &[u8],
    plan: RenamePlan,
    over: bool,
    now: Timespec,
) -> (r: Result<(), StoreError>)
    requires
        time_ok(now),
        dst_name@.len() <= u16::MAX,
        plan_ok(plan),
    ensures
        edited(*old(tx), *final(tx)),
        forall|h: nat| #[trigger]
            editing(*old(tx), *final(tx), h) && inode_fits(
                old(tx).objects.payloads(),
                plan.sp@,
                old(tx).max_fanout,
                h,
            ) && inode_fits(old(tx).objects.payloads(), plan.dp@, old(tx).max_fanout, h)
                ==> match r {
                Ok(_) => {
                    let sp = item_of(old(tx).objects.payloads(), plan.sp@, old(tx).max_fanout);
                    let dp = item_of(old(tx).objects.payloads(), plan.dp@, old(tx).max_fanout);
                    &&& final(tx).whole(h + 3)
                    &&& final(tx).ns() == old(tx).ns().insert(
                        src_parent,
                        relisted(
                            sp,
                            erase(sp.entries, src_name@),
                            if plan.with_dir {
                                one_less(sp.inode.nlink)
                            } else {
                                sp.inode.nlink
                            },
                            now,
                        ),
                    ).insert(
                        dst_parent,
                        relisted(
                            dp,
                            upsert(dp.entries, dst_name@, entry_bytes(plan.entry)),
                            if plan.with_dir {
                                one_more(dp.inode.nlink)
                            } else {
                                dp.inode.nlink
                            },
                            now,
                        ),
                    )
                },
                Err(_) => strained(*old(tx), h + 2),
            },
{
    let ghost was = *tx;
    let ghost p0 = tx.objects.payloads();
    let ghost f = tx.max_fanout;
    let ghost sv = plan.sp@;
    let ghost dv = plan.dp@;
    let bound = bind_over(tx, plan.dst_root, dst_name, plan.entry, over);
    let ghost t1 = *tx;
    proof {
        assert forall|h: nat| #[trigger] editing(was, t1, h) && inode_fits(
            p0,
            dv,
            f,
            h,
        ) implies dir_editing(was, t1, plan.dst_root@, h) by {}
    }
    let dst_root = match bound {
        Ok(id) => id,
        Err(e) => return Err(e),
    };
    let cleared = dir_unbind(tx, plan.src_root, src_name);
    let ghost t2 = *tx;
    proof {
        assert forall|h: nat| #[trigger] editing(was, t2, h) && inode_fits(
            p0,
            sv,
            f,
            h,
        ) implies dir_editing(t1, t2, plan.src_root@, h) && listing(
            t1.objects.payloads(),
            plan.src_root@,
            f,
        ) == listing(p0, plan.src_root@, f) by {
            lemma_editing(was, t1, t2, h);
            lemma_tree_grows(p0, t1.objects.payloads(), plan.src_root@, f, h, h);
        }
    }
    let src_root = match cleared {
        Ok(id) => id,
        Err(e) => return Err(e),
    };
    let src_nlink: u32 = if plan.with_dir {
        plan.sp.nlink.saturating_sub(1)
    } else {
        plan.sp.nlink
    };
    let dst_nlink: u32 = if plan.with_dir {
        plan.dp.nlink.saturating_add(1)
    } else {
        plan.dp.nlink
    };
    let first = put_dir(tx, src_parent, plan.sp, src_root, src_nlink, now);
    let ghost t3 = *tx;
    proof {
        assert forall|h: nat| #[trigger] editing(was, t3, h) && inode_fits(
            p0,
            sv,
            f,
            h,
        ) && inode_fits(p0, dv, f, h) implies match first {
            Ok(_) => {
                &&& t3.whole(h + 2)
                &&& t3.ns() == was.ns().insert(
                    src_parent,
                    relisted(
                        item_of(p0, sv, f),
                        erase(item_of(p0, sv, f).entries, src_name@),
                        src_nlink,
                        now,
                    ),
                )
                &&& inode_fits(t3.objects.payloads(), dv, f, h + 2)
                &&& item_of(t3.objects.payloads(), dv, f) == item_of(p0, dv, f)
                &&& tree_ok(t3.objects.payloads(), dst_root@, f, h + 2)
                &&& listing(t3.objects.payloads(), dst_root@, f) == upsert(
                    item_of(p0, dv, f).entries,
                    dst_name@,
                    entry_bytes(plan.entry),
                )
                &&& entries_ok(listing(t3.objects.payloads(), dst_root@, f))
            },
            Err(_) => strained(was, h + 2),
        } by {
            lemma_editing(was, t2, t3, h);
            lemma_editing(was, t1, t3, h);
            assert(dir_editing(was, t1, plan.dst_root@, h));
            assert(dir_editing(t1, t2, plan.src_root@, h));
            lemma_added(was, t2, h, h + 1);
            lemma_edit_on(was, t2, t3, h, h + 1);
            lemma_fits_grows(p0, t2.objects.payloads(), sv, f, h, h + 1);
            lemma_tree_grows(
                t2.objects.payloads(),
                t2.objects.payloads(),
                src_root@,
                f,
                h,
                h + 1,
            );
            lemma_fits_grows(p0, t3.objects.payloads(), dv, f, h, h + 2);
            lemma_tree_grows(
                t1.objects.payloads(),
                t3.objects.payloads(),
                dst_root@,
                f,
                h + 1,
                h + 2,
            );
        }
    }
    match first {
        Ok(_) => {},
        Err(e) => return Err(e),
    }
    let done = put_dir(tx, dst_parent, plan.dp, dst_root, dst_nlink, now);
    proof {
        let t4 = *tx;
        assert forall|h: nat| #[trigger] editing(was, t4, h) && inode_fits(
            p0,
            sv,
            f,
            h,
        ) && inode_fits(p0, dv, f, h) implies editing(was, t3, h) && editing(t3, t4, h + 2) by {
            lemma_editing(was, t3, t4, h);
            lemma_edit_on(was, t3, t4, h, h + 2);
        }
    }
    done
}

impl<B: IoBackend> Store<B> {
    /// Rename `src_name` under `src_parent` to `dst_name` under `dst_parent`:
    /// what [`Store::rename`] does inside its transaction. An existing
    /// destination is replaced.
    #[verifier::rlimit(60)]
    #[verifier::spinoff_prover]
    pub fn rename_in_tx(
        tx: &mut Tx<'_, B>,
        src_parent: u64,
        src_name: &[u8],
        dst_parent: u64,
        dst_name: &[u8],
        now: Timespec,
    ) -> (r: Result<RenameOutcome, StoreError>)
        requires
            time_ok(now),
        ensures
            edited(*old(tx), *final(tx)),
            !valid_name(src_name@) || !valid_name(dst_name@) ==> r is Err && r->Err_0 is Config,
            forall|h: nat| #[trigger]
                editing(*old(tx), *final(tx), h) ==> match r {
                    Ok(o) => {
                        let n = old(tx).ns();
                        &&& !rename_refused(n, src_parent, src_name@, dst_parent, dst_name@)
                        &&& o.src_ino == moved(n, src_parent, src_name@).ino
                        &&& o.replaced_dst_ino == if src_parent == dst_parent && src_name@
                            == dst_name@ {
                            None
                        } else {
                            replaced(n, src_parent, src_name@, dst_parent, dst_name@)
                        }
                        &&& final(tx).whole(h + 4)
                        &&& final(tx).ns() == renamed(
                            n,
                            src_parent,
                            src_name@,
                            dst_parent,
                            dst_name@,
                            now,
                        )
                    },
                    Err(_) => strained(*old(tx), h + 3) || (*final(tx) == *old(tx)
                        && rename_refused(
                        old(tx).ns(),
                        src_parent,
                        src_name@,
                        dst_parent,
                        dst_name@,
                    )),
                },
    {
        if !Self::validate_name(src_name) || !Self::validate_name(dst_name) {
            return Err(StoreError::Config("invalid entry name".to_string()));
        }
        let ghost was = *tx;
        let ghost p0 = tx.objects.payloads();
        let ghost f = tx.max_fanout;
        if src_parent == dst_parent && bytes_equal(src_name, dst_name) {
            let found = Self::dir_lookup_in_tx(tx, src_parent, src_name);
            proof {
                assert forall|h: nat| #[trigger] editing(was, was, h) implies was.reads(h) by {}
                assert forall|h: nat| #[trigger] editing(was, was, h) implies was.whole(h + 4) by {
                    lemma_fs_grows(p0, p0, was.root.inode_index_root@, f, h, h + 4);
                }
            }
            return match found {
                Ok(Some(e)) => Ok(RenameOutcome { src_ino: e.ino, replaced_dst_ino: None }),
                Ok(None) => Err(StoreError::Invariant("no such entry".to_string())),
                Err(e) => Err(e),
            };
        }
        let mut plan = match plan_rename(tx, src_parent, src_name, dst_parent, dst_name) {
            Ok(v) => v,
            Err(e) => return Err(e),
        };
        let ghost plan0 = plan;
        let mut replaced_dst_ino: Option<u64> = None;
        let over = plan.displaced.is_some();
        match plan.displaced.take() {
            Some((d, target)) => {
                let out = displace(tx, d, target);
                let ghost t1 = *tx;
                proof {
                    assert forall|h: nat| #[trigger] editing(was, t1, h) implies {
                        &&& editing(was, was, h)
                        &&& planned(
                            was,
                            plan0,
                            src_parent,
                            src_name@,
                            dst_parent,
                            dst_name@,
                            h,
                        )
                    } by {
                        lemma_editing(was, was, t1, h);
                    }
                }
                match out {
                    Ok(_) => {},
                    Err(e) => return Err(e),
                }
                replaced_dst_ino = Some(d);
            },
            None => {},
        }
        let ghost t1 = *tx;
        proof {
            assert forall|h: nat| #[trigger] editing(was, t1, h) implies {
                &&& planned(was, plan0, src_parent, src_name@, dst_parent, dst_name@, h)
                &&& t1.whole(h + 1)
                &&& t1.ns() == displaced(
                    was.ns(),
                    replaced(was.ns(), src_parent, src_name@, dst_parent, dst_name@),
                )
                &&& inode_fits(t1.objects.payloads(), plan0.sp@, f, h + 1)
                &&& inode_fits(t1.objects.payloads(), plan0.dp@, f, h + 1)
                &&& item_of(t1.objects.payloads(), plan0.sp@, f) == was.ns()[src_parent]
                &&& item_of(t1.objects.payloads(), plan0.dp@, f) == was.ns()[dst_parent]
            } by {
                lemma_editing(was, was, t1, h);
                assert(planned(was, plan0, src_parent, src_name@, dst_parent, dst_name@, h));
                if !over {
                    lemma_fs_grows(
                        p0,
                        p0,
                        was.root.inode_index_root@,
                        f,
                        h,
                        h + 1,
                    );
                }
                lemma_fits_grows(p0, t1.objects.payloads(), plan0.sp@, f, h, h + 1);
                lemma_fits_grows(p0, t1.objects.payloads(), plan0.dp@, f, h, h + 1);
            }
        }
        let src_ino: u64 = plan.entry.ino;
        if src_parent == dst_parent {
            let done = move_within(
                tx,
                src_parent,
                plan.sp,
                plan.src_root,
                src_name,
                dst_name,
                plan.entry,
                over,
                now,
            );
            proof {
                let t2 = *tx;
                assert forall|h: nat| #[trigger] editing(was, t2, h) implies editing(was, t1, h) && editing(t1, t2, h + 1) && (
                done is Ok ==> t2.whole(h + 4)) by {
                    lemma_editing(was, t1, t2, h);
                    lemma_edit_on(was, t1, t2, h, h + 1);
                    if done is Ok {
                        lemma_fs_grows(
                            t2.objects.payloads(),
                            t2.objects.payloads(),
                            t2.root.inode_index_root@,
                            f,
                            h + 3,
                            h + 4,
                        );
                    }
                }
            }
            match done {
                Ok(_) => Ok(RenameOutcome { src_ino, replaced_dst_ino }),
                Err(e) => Err(e),
            }
        } else {
            let done = move_across(
                tx,
                src_parent,
                src_name,
                dst_parent,
                dst_name,
                plan,
                over,
                now,
            );
            proof {
                let t2 = *tx;
                assert forall|h: nat| #[trigger] editing(was, t2, h) implies editing(was, t1, h) && editing(t1, t2, h + 1) by {
                    lemma_editing(was, t1, t2, h);
                    lemma_edit_on(was, t1, t2, h, h + 1);
                }
            }
            match done {
                Ok(_) => Ok(RenameOutcome { src_ino, replaced_dst_ino }),
                Err(e) => Err(e),
            }
        }
    }
}

// ---------------------------------------------------------------------------
// Hard links
// ---------------------------------------------------------------------------

/// No link can be made: the name is not valid or taken, the parent is no
/// directory, or the target is missing or a directory.
pub open spec fn link_refused(n: Namespace, parent: u64, name: Seq<u8>, ino: u64) -> bool {
    ||| !valid_name(name)
    ||| !has_dir(n, parent)
    ||| entry_at(n[parent].entries, name) is Some
    ||| !n.contains_key(ino)
    ||| is_dir(n[ino].inode)
}

/// The `d_type` of an entry for an existing inode.
pub open spec fn link_type(d: DataView) -> u8 {
    match d {
        DataView::File { .. } => DT_REG,
        DataView::Symlink { .. } => DT_LNK,
        _ => DT_UNKNOWN,
    }
}

/// The namespace with another name for `ino`.
pub open spec fn linked(
    n: Namespace,
    parent: u64,
    name: Seq<u8>,
    ino: u64,
    now: Timespec,
) -> Namespace {
    n.insert(
        parent,
        relisted(
            n[parent],
            upsert(
                n[parent].entries,
                name,
                entry_bytes(DirEntry { ino, d_type: link_type(n[ino].inode.data) }),
            ),
            n[parent].inode.nlink,
            now,
        ),
    ).insert(ino, relinked(n[ino], one_more(n[ino].inode.nlink)))
}

impl<B: IoBackend> Store<B> {
    /// Create a hard link, another directory entry for `ino`: what
    /// [`Store::link`] does inside its transaction.
    #[verifier::rlimit(60)]
    #[verifier::spinoff_prover]
    pub fn link_in_tx(tx: &mut Tx<'_, B>, parent: u64, name: &[u8], ino: u64, now: Timespec) -> (r:
        Result<(), StoreError>)
        requires
            time_ok(now),
        ensures
            edited(*old(tx), *final(tx)),
            !valid_name(name@) ==> r is Err && r->Err_0 is Config,
            forall|h: nat| #[trigger]
                editing(*old(tx), *final(tx), h) ==> match r {
                    Ok(_) => {
                        &&& !link_refused(old(tx).ns(), parent, name@, ino)
                        &&& final(tx).whole(h + 3)
                        &&& final(tx).ns() == linked(old(tx).ns(), parent, name@, ino, now)
                    },
                    Err(_) => strained(*old(tx), h + 2) || (*final(tx) == *old(tx)
                        && link_refused(old(tx).ns(), parent, name@, ino)),
                },
    {
        if !Self::validate_name(name) {
            return Err(StoreError::Config("invalid entry name".to_string()));
        }
        let ghost was = *tx;
        let ghost p0 = tx.objects.payloads();
        let ghost f = tx.max_fanout;
        proof {
            assert forall|h: nat| #[trigger] editing(was, was, h) implies was.reads(h) by {}
        }
        let (parent_inode, dir_root) = match find_dir(tx, parent) {
            Ok(v) => v,
            Err(e) => return Err(e),
        };
        let ghost pv = parent_inode@;
        let found = dir_find(tx, dir_root, name);
        proof {
            assert forall|h: nat| #[trigger] editing(was, was, h) implies dir_editing(
                was,
                was,
                dir_root@,
                h,
            ) by {
                assert(was.reads(h));
            }
        }
        match found {
            Err(e) => return Err(e),
            Ok(Some(_)) => return Err(StoreError::Invariant("entry already exists".to_string())),
            Ok(None) => {},
        }
        let target = match Self::inode_for_tx(tx, ino) {
            Ok(v) => v,
            Err(e) => return Err(e),
        };
        let ghost tv = target@;
        if target.is_dir() {
            return Err(StoreError::Invariant("cannot hard link a directory".to_string()));
        }
        let d_type: u8 = match &target.data {
            InodeData::File { .. } => DT_REG,
            InodeData::Symlink { .. } => DT_LNK,
            _ => DT_UNKNOWN,
        };
        let entry = DirEntry { ino, d_type };
        proof {
            assert forall|h: nat| #[trigger] editing(was, was, h) implies {
                &&& !link_refused(was.ns(), parent, name@, ino)
                &&& inode_fits(p0, pv, f, h)
                &&& was.ns()[parent] == item_of(p0, pv, f)
                &&& inode_fits(p0, tv, f, h)
                &&& was.ns()[ino] == item_of(p0, tv, f)
                &&& d_type == link_type(was.ns()[ino].inode.data)
            } by {
                assert(was.reads(h));
            }
        }
        let bound = dir_bind(tx, dir_root, name, entry);
        let ghost t1 = *tx;
        let ghost p1 = tx.objects.payloads();
        proof {
            assert forall|h: nat| #[trigger] editing(was, t1, h) implies dir_editing(
                was,
                t1,
                dir_root@,
                h,
            ) by {
                lemma_editing(was, was, t1, h);
            }
        }
        let root = match bound {
            Ok(id) => id,
            Err(e) => return Err(e),
        };
        let nlink: u32 = parent_inode.nlink;
        let put = put_dir(tx, parent, parent_inode, root, nlink, now);
        let ghost t2 = *tx;
        let ghost p2 = tx.objects.payloads();
        proof {
            assert forall|h: nat| #[trigger] editing(was, t2, h) implies match put {
                Ok(_) => {
                    &&& t2.whole(h + 2)
                    &&& t2.ns() == was.ns().insert(
                        parent,
                        relisted(
                            was.ns()[parent],
                            upsert(was.ns()[parent].entries, name@, entry_bytes(entry)),
                            nlink,
                            now,
                        ),
                    )
                    &&& inode_fits(p2, tv, f, h + 2)
                    &&& item_of(p2, tv, f) == item_of(p0, tv, f)
                },
                Err(_) => strained(was, h + 2),
            } by {
                lemma_editing(was, was, t2, h);
                lemma_editing(was, t1, t2, h);
                lemma_added(was, t1, h, h + 1);
                lemma_edit_on(was, t1, t2, h, h + 1);
                lemma_fits_grows(p0, p1, pv, f, h, h + 1);
                lemma_fits_grows(p0, p2, tv, f, h, h + 2);
            }
        }
        match put {
            Ok(_) => {},
            Err(e) => return Err(e),
        }
        let links: u32 = target.nlink.saturating_add(1);
        let done = put_links(tx, ino, target, links);
        proof {
            let t3 = *tx;
            assert forall|h: nat| #[trigger] editing(was, t3, h) implies {
                &&& editing(was, was, h)
                &&& editing(was, t2, h)
                &&& editing(t2, t3, h + 2)
            } by {
                lemma_editing(was, was, t3, h);
                lemma_editing(was, t2, t3, h);
                lemma_edit_on(was, t2, t3, h, h + 2);
            }
        }
        done
    }
}

} // verus!
