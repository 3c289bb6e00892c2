//! Laws of two operations in a row: what one does the other takes back, and what is refused
//! after it.

use vstd::prelude::*;

use crate::attrs::{xattr_cut, xattr_put};
use crate::bytes::lemma_lex_order;
use crate::directory::{entry_bytes, entry_canonical, entry_round_trip, DirEntry};
use crate::dt::{DT_DIR, DT_LNK, DT_REG, DT_UNKNOWN};
use crate::fs::{entries_ok, entry_at, rootless, Item, Listing, Namespace};
use crate::inode::{DataView, InodeView, Timespec};
use crate::laws::in_order;
use crate::links::{link_refused, link_type, linked, moved, rename_refused, renamed};
use crate::name_laws::{kinds_agree, named, new_inode_is_as_asked};
use crate::namespace::{child_of, create_refused, created, entry_cut, entry_inode, entry_put,
    entry_type, has_dir, is_dir, unlink_refused, unlinked, valid_name, valid_xattr_name, NewEntry};
use crate::sorted::{erase, has_key, lemma_erase_sorted, lemma_lookup_erase, lemma_lookup_upsert,
    lemma_rank, lemma_rank_is, lemma_upsert_sorted, lookup, rank, sorted, upsert};

verus! {

/// A name that is put into a listing and taken out again leaves the listing as it was.
proof fn lemma_put_taken(s: Listing, k: Seq<u8>, v: Seq<u8>)
    requires
        sorted(s),
        lookup(s, k) is None,
    ensures
        erase(upsert(s, k, v), k) == s,
{
    lemma_lex_order();
    lemma_rank(s, k);
    lemma_upsert_sorted(s, k, v);
    let u = upsert(s, k, v);
    let r = rank(s, k);
    lemma_rank_is(u, k, r);
    assert(erase(u, k) =~= s);
}

/// An entry that is taken out of a listing and put back leaves the listing as it was.
proof fn lemma_taken_put(s: Listing, k: Seq<u8>)
    requires
        sorted(s),
        lookup(s, k) is Some,
    ensures
        upsert(erase(s, k), k, lookup(s, k)->0) == s,
{
    lemma_lex_order();
    lemma_rank(s, k);
    lemma_erase_sorted(s, k);
    let t = erase(s, k);
    let r = rank(s, k);
    if r > 0 {
        assert(t[r - 1] == s[r - 1]);
    }
    if r < t.len() {
        assert(t[r] == s[r + 1]);
        assert(lex_gt(s, r));
    }
    lemma_rank_is(t, k, r);
    if r < t.len() {
        assert(t[r].0 != k);
    }
    assert(upsert(t, k, s[r].1) =~= s);
}

spec fn lex_gt(s: Listing, r: int) -> bool {
    crate::bytes::lex_lt(s[r].0, s[r + 1].0)
}

/// The directory as it was, but for the time of its last change.
pub open spec fn touched(n: Namespace, dir: u64, now: Timespec) -> Namespace {
    n.insert(
        dir,
        Item { inode: InodeView { mtime: now, ..n[dir].inode }, ..n[dir] },
    )
}

/// A name is refused exactly where it is empty, longer than 255 bytes, one of the two dot
/// names, or holds a NUL or a slash.
pub proof fn names_are_refused(name: Seq<u8>)
    ensures
        !valid_name(name) <==> {
            ||| name.len() == 0
            ||| name.len() > 255
            ||| name =~= seq![46u8]
            ||| name =~= seq![46u8, 46u8]
            ||| name.contains(0u8)
            ||| name.contains(47u8)
        },
        !valid_xattr_name(name) <==> {
            ||| name.len() == 0
            ||| name.len() > 255
            ||| name.contains(0u8)
            ||| name.contains(47u8)
        },
{
    if name.contains(0u8) {
        let i = choose|i: int| 0 <= i < name.len() && name[i] == 0u8;
        assert(crate::namespace::bad_byte(name[i]));
    }
    if name.contains(47u8) {
        let i = choose|i: int| 0 <= i < name.len() && name[i] == 47u8;
        assert(crate::namespace::bad_byte(name[i]));
    }
    if !name.contains(0u8) && !name.contains(47u8) {
        assert forall|i: int| 0 <= i < name.len() implies !crate::namespace::bad_byte(
            #[trigger] name[i],
        ) by {
            assert(name.contains(name[i]));
        }
    }
}

/// A created name can be removed, and not be created again. Its removal leaves the namespace
/// as it was before the create, but for the time at which the directory was changed.
#[verifier::rlimit(30)]
pub proof fn unlink_undoes_create(
    n: Namespace,
    parent: u64,
    name: Seq<u8>,
    ino: u64,
    entry: NewEntry,
    now: Timespec,
    then: Timespec,
)
    requires
        in_order(n),
        entries_ok(n[parent].entries),
        !create_refused(n, parent, name),
        !n.contains_key(ino),
        n[parent].inode.nlink < u32::MAX,
    ensures
        ({
            let v = rootless(entry_inode(entry, now));
            let m = created(n, parent, name, ino, v, entry_type(entry.kind), now);
            let dir = is_dir(v);
            &&& create_refused(m, parent, name)
            &&& link_refused(m, parent, name, ino)
            &&& !unlink_refused(m, parent, name, dir)
            &&& unlink_refused(m, parent, name, !dir)
            &&& unlinked(m, parent, name, dir, then) == touched(n, parent, then)
        }),
{
    let v = rootless(entry_inode(entry, now));
    let e = DirEntry { ino, d_type: entry_type(entry.kind) };
    let s = n[parent].entries;
    let m = created(n, parent, name, ino, v, entry_type(entry.kind), now);
    new_inode_is_as_asked(entry, now);
    lemma_absent(s, name);
    lemma_lookup_upsert(s, name, entry_bytes(e), name);
    entry_round_trip(e);
    lemma_put_taken(s, name, entry_bytes(e));
    assert(parent != ino);
    assert(child_of(m, parent, name) == ino);
    assert(unlinked(m, parent, name, is_dir(v), then) =~= touched(n, parent, then));
}

proof fn lemma_absent(s: Listing, name: Seq<u8>)
    requires
        sorted(s),
        entries_ok(s),
        entry_at(s, name) is None,
    ensures
        lookup(s, name) is None,
{
    lemma_rank(s, name);
    if has_key(s, name) {
        let r = rank(s, name);
        assert(s[r].1 == lookup(s, name)->0);
    }
}

/// A removed name can be created again, whether it stood for a file or a directory, and not
/// be removed again.
pub proof fn unlinked_name_is_free(
    n: Namespace,
    parent: u64,
    name: Seq<u8>,
    rmdir: bool,
    now: Timespec,
)
    requires
        in_order(n),
        !unlink_refused(n, parent, name, rmdir),
        child_of(n, parent, name) != parent,
    ensures
        ({
            let m = unlinked(n, parent, name, rmdir, now);
            &&& !create_refused(m, parent, name)
            &&& unlink_refused(m, parent, name, true)
            &&& unlink_refused(m, parent, name, false)
        }),
{
    lemma_lookup_erase(n[parent].entries, name, name);
}

/// A further name for a file can be removed, and not be made again. Its removal leaves the
/// file with the links it had, and the namespace as it was but for the time at which the
/// directory was changed.
#[verifier::rlimit(30)]
pub proof fn unlink_undoes_link(
    n: Namespace,
    parent: u64,
    name: Seq<u8>,
    ino: u64,
    now: Timespec,
    then: Timespec,
)
    requires
        in_order(n),
        kinds_agree(n),
        entries_ok(n[parent].entries),
        !link_refused(n, parent, name, ino),
        0 < n[ino].inode.nlink < u32::MAX,
    ensures
        ({
            let m = linked(n, parent, name, ino, now);
            &&& link_refused(m, parent, name, ino)
            &&& create_refused(m, parent, name)
            &&& !unlink_refused(m, parent, name, false)
            &&& unlinked(m, parent, name, false, then) == touched(n, parent, then)
        }),
{
    let e = DirEntry { ino, d_type: link_type(n[ino].inode.data) };
    let s = n[parent].entries;
    let m = linked(n, parent, name, ino, now);
    lemma_absent(s, name);
    lemma_lookup_upsert(s, name, entry_bytes(e), name);
    entry_round_trip(e);
    lemma_put_taken(s, name, entry_bytes(e));
    assert(parent != ino);
    assert(child_of(m, parent, name) == ino);
    assert(unlinked(m, parent, name, false, then) =~= touched(n, parent, then));
}

/// Every entry tells the type of what it stands for.
pub open spec fn typed(n: Namespace) -> bool {
    forall|d: u64, q: Seq<u8>|
        has_dir(n, d) && (#[trigger] entry_at(n[d].entries, q) matches Some(e)
            && n.contains_key(e.ino)) ==> entry_at(n[d].entries, q)->0.d_type == type_of(
            n[entry_at(n[d].entries, q)->0.ino].inode.data,
        )
}

/// The type that an entry tells of an inode with this data.
pub open spec fn type_of(d: DataView) -> u8 {
    match d {
        DataView::File { .. } => DT_REG,
        DataView::Directory { .. } => DT_DIR,
        DataView::Symlink { .. } => DT_LNK,
        DataView::Device => DT_UNKNOWN,
    }
}

/// A create keeps every entry telling the type of what it stands for.
pub proof fn create_keeps_types(
    n: Namespace,
    parent: u64,
    name: Seq<u8>,
    ino: u64,
    entry: NewEntry,
    now: Timespec,
)
    requires
        in_order(n),
        typed(n),
        !create_refused(n, parent, name),
        !n.contains_key(ino),
        forall|d: u64, q: Seq<u8>| !(#[trigger] named(n, d, q, ino)),
    ensures
        typed(
            created(
                n,
                parent,
                name,
                ino,
                rootless(entry_inode(entry, now)),
                entry_type(entry.kind),
                now,
            ),
        ),
{
    let v = rootless(entry_inode(entry, now));
    let m = created(n, parent, name, ino, v, entry_type(entry.kind), now);
    let e = DirEntry { ino, d_type: entry_type(entry.kind) };
    new_inode_is_as_asked(entry, now);
    assert(parent != ino);
    assert forall|d: u64, q: Seq<u8>|
        has_dir(m, d) && (#[trigger] entry_at(m[d].entries, q) matches Some(x) && m.contains_key(
            x.ino,
        )) implies entry_at(m[d].entries, q)->0.d_type == type_of(
        m[entry_at(m[d].entries, q)->0.ino].inode.data,
    ) by {
        lemma_lookup_upsert(n[parent].entries, name, entry_bytes(e), q);
        entry_round_trip(e);
        if d == ino {
            let none: Listing = Seq::empty();
            assert(!has_key(none, q));
        } else if !(d == parent && q == name) {
            let x = entry_at(m[d].entries, q)->0;
            assert(entry_at(n[d].entries, q) == Some(x));
            assert(!named(n, d, q, ino));
        }
    }
}

/// A link keeps every entry telling the type of what it stands for.
pub proof fn link_keeps_types(
    n: Namespace,
    parent: u64,
    name: Seq<u8>,
    ino: u64,
    now: Timespec,
)
    requires
        in_order(n),
        kinds_agree(n),
        typed(n),
        !link_refused(n, parent, name, ino),
    ensures
        typed(linked(n, parent, name, ino, now)),
{
    let m = linked(n, parent, name, ino, now);
    let e = DirEntry { ino, d_type: link_type(n[ino].inode.data) };
    assert(parent != ino);
    assert forall|d: u64, q: Seq<u8>|
        has_dir(m, d) && (#[trigger] entry_at(m[d].entries, q) matches Some(x) && m.contains_key(
            x.ino,
        )) implies entry_at(m[d].entries, q)->0.d_type == type_of(
        m[entry_at(m[d].entries, q)->0.ino].inode.data,
    ) by {
        lemma_lookup_upsert(n[parent].entries, name, entry_bytes(e), q);
        entry_round_trip(e);
        if !(d == parent && q == name) {
            assert(entry_at(n[d].entries, q) == entry_at(m[d].entries, q));
        }
    }
}

/// A rename keeps every entry telling the type of what it stands for.
#[verifier::rlimit(40)]
#[verifier::spinoff_prover]
pub proof fn rename_keeps_types(
    n: Namespace,
    src_parent: u64,
    src_name: Seq<u8>,
    dst_parent: u64,
    dst_name: Seq<u8>,
    now: Timespec,
)
    requires
        in_order(n),
        typed(n),
        !rename_refused(n, src_parent, src_name, dst_parent, dst_name),
    ensures
        typed(renamed(n, src_parent, src_name, dst_parent, dst_name, now)),
{
    let m = renamed(n, src_parent, src_name, dst_parent, dst_name, now);
    let e = moved(n, src_parent, src_name);
    if !(src_parent == dst_parent && src_name == dst_name) {
        assert forall|d: u64, q: Seq<u8>|
            has_dir(m, d) && (#[trigger] entry_at(m[d].entries, q) matches Some(x)
                && m.contains_key(x.ino)) implies entry_at(m[d].entries, q)->0.d_type == type_of(
            m[entry_at(m[d].entries, q)->0.ino].inode.data,
        ) by {
            entry_round_trip(e);
            if src_parent == dst_parent {
                let u = upsert(n[src_parent].entries, dst_name, entry_bytes(e));
                lemma_lookup_upsert(n[src_parent].entries, dst_name, entry_bytes(e), q);
                lemma_upsert_sorted(n[src_parent].entries, dst_name, entry_bytes(e));
                lemma_lookup_erase(u, src_name, q);
            } else {
                lemma_lookup_erase(n[src_parent].entries, src_name, q);
                lemma_lookup_upsert(n[dst_parent].entries, dst_name, entry_bytes(e), q);
            }
            let x = entry_at(m[d].entries, q)->0;
            if d == dst_parent && q == dst_name {
                assert(x == e);
                assert(entry_at(n[src_parent].entries, src_name) == Some(e));
            } else {
                assert(entry_at(n[d].entries, q) == Some(x));
            }
            assert(m[x.ino].inode.data == n[x.ino].inode.data);
        }
    }
}

/// A rename onto a free name can be taken back by the rename the other way, which leaves the
/// namespace as it was but for the times at which the two directories were changed.
#[verifier::rlimit(60)]
#[verifier::spinoff_prover]
pub proof fn rename_back_undoes_rename(
    n: Namespace,
    src_parent: u64,
    src_name: Seq<u8>,
    dst_parent: u64,
    dst_name: Seq<u8>,
    now: Timespec,
    then: Timespec,
)
    requires
        in_order(n),
        entries_ok(n[src_parent].entries),
        entries_ok(n[dst_parent].entries),
        !rename_refused(n, src_parent, src_name, dst_parent, dst_name),
        entry_at(n[dst_parent].entries, dst_name) is None,
        moved(n, src_parent, src_name).ino != src_parent,
        moved(n, src_parent, src_name).ino != dst_parent,
        n[src_parent].inode.nlink > 0,
        n[dst_parent].inode.nlink < u32::MAX,
    ensures
        ({
            let m = renamed(n, src_parent, src_name, dst_parent, dst_name, now);
            &&& rename_refused(m, src_parent, src_name, dst_parent, dst_name)
            &&& !rename_refused(m, dst_parent, dst_name, src_parent, src_name)
            &&& renamed(m, dst_parent, dst_name, src_parent, src_name, then) == touched(
                touched(n, src_parent, then),
                dst_parent,
                then,
            )
        }),
{
    let m = renamed(n, src_parent, src_name, dst_parent, dst_name, now);
    let e = moved(n, src_parent, src_name);
    let v = entry_bytes(e);
    let s = n[src_parent].entries;
    let t = n[dst_parent].entries;
    lemma_held(s, src_name);
    lemma_absent(t, dst_name);
    entry_round_trip(e);
    if src_parent == dst_parent {
        let u = upsert(s, dst_name, v);
        lemma_lookup_upsert(s, dst_name, v, src_name);
        lemma_lookup_upsert(s, dst_name, v, dst_name);
        lemma_upsert_sorted(s, dst_name, v);
        lemma_lookup_erase(u, src_name, dst_name);
        lemma_lookup_erase(u, src_name, src_name);
        lemma_taken_put(u, src_name);
        lemma_put_taken(s, dst_name, v);
    } else {
        lemma_lookup_erase(s, src_name, src_name);
        lemma_lookup_upsert(t, dst_name, v, dst_name);
        lemma_taken_put(s, src_name);
        lemma_put_taken(t, dst_name, v);
    }
    assert(moved(m, dst_parent, dst_name) == e);
    assert(renamed(m, dst_parent, dst_name, src_parent, src_name, then) =~= touched(
        touched(n, src_parent, then),
        dst_parent,
        then,
    ));
}

proof fn lemma_held(s: Listing, name: Seq<u8>)
    requires
        entry_at(s, name) is Some,
    ensures
        lookup(s, name) == Some(entry_bytes(entry_at(s, name)->0)),
{
    entry_canonical(lookup(s, name)->0);
}

/// A rename is refused where there is nothing to move, where a file would replace a directory
/// or a directory a file, and where a directory that is not empty would be replaced.
pub proof fn rename_replaces_like_with_like(
    n: Namespace,
    src_parent: u64,
    src_name: Seq<u8>,
    dst_parent: u64,
    dst_name: Seq<u8>,
    e: u64,
    d: u64,
)
    requires
        kinds_agree(n),
        named(n, src_parent, src_name, e),
        named(n, dst_parent, dst_name, d),
        n.contains_key(e) && n.contains_key(d),
        e != d,
        valid_name(src_name) && valid_name(dst_name),
    ensures
        rename_refused(n, src_parent, src_name, dst_parent, dst_name) <==> {
            ||| has_dir(n, e) && !has_dir(n, d)
            ||| !has_dir(n, e) && has_dir(n, d)
            ||| has_dir(n, d) && n[d].entries.len() > 0
        },
{
}

/// A rename onto a free name of a directory is refused only where a name is not valid or the
/// name to move is not there.
pub proof fn rename_to_free_name_is_done(
    n: Namespace,
    src_parent: u64,
    src_name: Seq<u8>,
    dst_parent: u64,
    dst_name: Seq<u8>,
    e: u64,
)
    requires
        has_dir(n, dst_parent),
        entry_at(n[dst_parent].entries, dst_name) is None,
        n.contains_key(e),
    ensures
        valid_name(src_name) && valid_name(dst_name) && named(n, src_parent, src_name, e)
            ==> !rename_refused(n, src_parent, src_name, dst_parent, dst_name),
        !has_dir(n, src_parent) || entry_at(n[src_parent].entries, src_name) is None
            ==> rename_refused(n, src_parent, src_name, dst_parent, dst_name),
{
}

/// An inode renamed from one of its names onto another loses the first and keeps the second;
/// no inode is gone, and none changes but the two directories.
pub proof fn rename_onto_own_name_takes_one(
    n: Namespace,
    src_parent: u64,
    src_name: Seq<u8>,
    dst_parent: u64,
    dst_name: Seq<u8>,
    now: Timespec,
    d: u64,
    q: Seq<u8>,
    x: u64,
)
    requires
        in_order(n),
        !rename_refused(n, src_parent, src_name, dst_parent, dst_name),
        named(n, dst_parent, dst_name, moved(n, src_parent, src_name).ino),
        !(src_parent == dst_parent && src_name == dst_name),
    ensures
        ({
            let m = renamed(n, src_parent, src_name, dst_parent, dst_name, now);
            &&& m.dom() == n.dom()
            &&& named(m, d, q, x) == (named(n, d, q, x) && !(d == src_parent && q == src_name))
            &&& x != src_parent && x != dst_parent ==> m[x] == n[x]
        }),
{
    let m = renamed(n, src_parent, src_name, dst_parent, dst_name, now);
    let e = moved(n, src_parent, src_name);
    entry_round_trip(e);
    if src_parent == dst_parent {
        let u = upsert(n[src_parent].entries, dst_name, entry_bytes(e));
        lemma_lookup_upsert(n[src_parent].entries, dst_name, entry_bytes(e), q);
        lemma_upsert_sorted(n[src_parent].entries, dst_name, entry_bytes(e));
        lemma_lookup_erase(u, src_name, q);
    } else {
        lemma_lookup_erase(n[src_parent].entries, src_name, q);
        lemma_lookup_upsert(n[dst_parent].entries, dst_name, entry_bytes(e), q);
    }
    assert(m.dom() =~= n.dom());
}

/// An extended attribute that is set reads back, one that is removed is gone, and every other
/// one is as it was; of the inode only the time of its last change is another, and no other
/// inode changes.
pub proof fn xattrs_read_back(
    n: Namespace,
    ino: u64,
    name: Seq<u8>,
    value: Seq<u8>,
    now: Timespec,
    other: Seq<u8>,
    x: u64,
)
    requires
        n.contains_key(ino),
        sorted(n[ino].xattrs),
    ensures
        ({
            let p = xattr_put(n, ino, name, value, now);
            let c = xattr_cut(n, ino, name, now);
            &&& lookup(p[ino].xattrs, name) == Some(value)
            &&& lookup(c[ino].xattrs, name) is None
            &&& other != name ==> lookup(p[ino].xattrs, other) == lookup(n[ino].xattrs, other)
                && lookup(c[ino].xattrs, other) == lookup(n[ino].xattrs, other)
            &&& p[ino].inode == (InodeView { ctime: now, ..n[ino].inode })
            &&& c[ino].inode == (InodeView { ctime: now, ..n[ino].inode })
            &&& p[ino].entries == n[ino].entries && c[ino].entries == n[ino].entries
            &&& p.dom() == n.dom() && c.dom() == n.dom()
            &&& x != ino ==> p[x] == n[x] && c[x] == n[x]
            &&& lookup(n[ino].xattrs, name) is None ==> xattr_cut(p, ino, name, now)[ino].xattrs
                == n[ino].xattrs
        }),
{
    lemma_lookup_upsert(n[ino].xattrs, name, value, name);
    lemma_lookup_upsert(n[ino].xattrs, name, value, other);
    lemma_lookup_erase(n[ino].xattrs, name, name);
    lemma_lookup_erase(n[ino].xattrs, name, other);
    assert(xattr_put(n, ino, name, value, now).dom() =~= n.dom());
    assert(xattr_cut(n, ino, name, now).dom() =~= n.dom());
    if lookup(n[ino].xattrs, name) is None {
        lemma_put_taken(n[ino].xattrs, name, value);
    }
}

/// An entry that is put into a directory is looked up there, one that is taken out is gone,
/// and every other entry is as it was; of the directory only the time of its last change is
/// another, and no other inode changes.
pub proof fn entries_read_back(
    n: Namespace,
    dir: u64,
    name: Seq<u8>,
    e: DirEntry,
    now: Timespec,
    other: Seq<u8>,
    x: u64,
)
    requires
        n.contains_key(dir),
        sorted(n[dir].entries),
    ensures
        ({
            let p = entry_put(n, dir, name, e, now);
            let c = entry_cut(n, dir, name, now);
            &&& entry_at(p[dir].entries, name) == Some(e)
            &&& entry_at(c[dir].entries, name) is None
            &&& other != name ==> entry_at(p[dir].entries, other) == entry_at(
                n[dir].entries,
                other,
            ) && entry_at(c[dir].entries, other) == entry_at(n[dir].entries, other)
            &&& p[dir].inode == (InodeView { mtime: now, ..n[dir].inode })
            &&& c[dir].inode == (InodeView { mtime: now, ..n[dir].inode })
            &&& p[dir].xattrs == n[dir].xattrs && c[dir].xattrs == n[dir].xattrs
            &&& p.dom() == n.dom() && c.dom() == n.dom()
            &&& x != dir ==> p[x] == n[x] && c[x] == n[x]
        }),
{
    lemma_lookup_upsert(n[dir].entries, name, entry_bytes(e), name);
    lemma_lookup_upsert(n[dir].entries, name, entry_bytes(e), other);
    lemma_lookup_erase(n[dir].entries, name, name);
    lemma_lookup_erase(n[dir].entries, name, other);
    entry_round_trip(e);
    assert(entry_put(n, dir, name, e, now).dom() =~= n.dom());
    assert(entry_cut(n, dir, name, now).dom() =~= n.dom());
}

} // verus!
