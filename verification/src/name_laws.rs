//! Laws of names and links: which names stand for an inode after an operation, and that its
//! link count is the number of them.

use vstd::prelude::*;

use crate::chunk::zero_id;
use crate::directory::{entry_bytes, entry_round_trip, DirEntry};
use crate::fs::{entry_at, rootless, Listing, Namespace};
use crate::inode::{DataView, InodeView, Timespec};
use crate::laws::in_order;
use crate::links::{link_refused, link_type, linked, moved, rename_refused, renamed, replaced};
use crate::mode::{S_IFBLK, S_IFCHR, S_IFDIR, S_IFLNK, S_IFMT, S_IFREG, S_IPERM};
use crate::namespace::{child_of, create_refused, created, entry_inode, entry_type, has_dir, is_dir,
    unlink_refused, unlinked, EntryKind, NewEntry};
use crate::sorted::{erase, lemma_erase_sorted, lemma_lookup_erase, lemma_lookup_upsert,
    lemma_upsert_sorted, upsert};

verus! {

/// The names that stand for an inode, each with its directory.
pub open spec fn names_of(n: Namespace, ino: u64) -> Set<(u64, Seq<u8>)> {
    Set::new(|p: (u64, Seq<u8>)| named(n, p.0, p.1, ino))
}

/// The name stands for the inode in the directory.
pub open spec fn named(n: Namespace, dir: u64, name: Seq<u8>, ino: u64) -> bool {
    has_dir(n, dir) && (entry_at(n[dir].entries, name) matches Some(e) && e.ino == ino)
}

/// The type bits of an inode say what its data is.
pub open spec fn kinds_agree(n: Namespace) -> bool {
    forall|i: u64| #[trigger] n.contains_key(i) ==> is_dir(n[i].inode) == (n[i].inode.data is Directory)
}

/// As many names stand for every file as it counts links, at most one for a directory, and
/// none for an inode that is not there.
pub open spec fn sound(n: Namespace) -> bool {
    &&& in_order(n)
    &&& kinds_agree(n)
    &&& forall|i: u64| #[trigger] n.contains_key(i) ==> links_count(n, i)
    &&& forall|i: u64| !(#[trigger] n.contains_key(i)) ==> names_of(n, i) =~= Set::empty()
}

/// The link count of a file is the number of its names.
pub open spec fn links_count(n: Namespace, i: u64) -> bool {
    &&& names_of(n, i).finite()
    &&& is_dir(n[i].inode) ==> names_of(n, i).len() <= 1
    &&& !is_dir(n[i].inode) ==> names_of(n, i).len() == n[i].inode.nlink
}

proof fn lemma_bound(s: Listing, name: Seq<u8>, e: DirEntry, q: Seq<u8>)
    requires
        crate::sorted::sorted(s),
    ensures
        entry_at(upsert(s, name, entry_bytes(e)), q) == if q == name {
            Some(e)
        } else {
            entry_at(s, q)
        },
        crate::sorted::sorted(upsert(s, name, entry_bytes(e))),
{
    lemma_lookup_upsert(s, name, entry_bytes(e), q);
    lemma_upsert_sorted(s, name, entry_bytes(e));
    entry_round_trip(e);
}

proof fn lemma_unbound(s: Listing, name: Seq<u8>, q: Seq<u8>)
    requires
        crate::sorted::sorted(s),
    ensures
        entry_at(erase(s, name), q) == if q == name {
            None
        } else {
            entry_at(s, q)
        },
        crate::sorted::sorted(erase(s, name)),
{
    lemma_lookup_erase(s, name, q);
    lemma_erase_sorted(s, name);
}

proof fn lemma_no_entries(q: Seq<u8>)
    ensures
        entry_at(Seq::empty(), q) is None,
{
    let s: Listing = Seq::empty();
    assert(!crate::sorted::has_key(s, q));
}

// ---------------------------------------------------------------------------
// Create
// ---------------------------------------------------------------------------

/// A new inode is of the kind asked for, with the permissions and owner given, made now; a
/// file starts empty and with one link, a directory with two, a symbolic link holds its
/// target and its length.
pub proof fn new_inode_is_as_asked(entry: NewEntry, now: Timespec)
    ensures
        ({
            let v = entry_inode(entry, now);
            &&& v.uid == entry.uid && v.gid == entry.gid
            &&& v.atime == now && v.mtime == now && v.ctime == now && v.crtime == now
            &&& is_dir(v) == (entry.kind is Directory)
            &&& (v.data is Directory) == (entry.kind is Directory)
            &&& (v.data is File) == (entry.kind is File)
            &&& v.nlink == if entry.kind is Directory {
                2u32
            } else {
                1u32
            }
            &&& v.flags == 0 && v.xattr_root == zero_id()
            &&& !(entry.kind is Device) ==> v.rdev == 0
            &&& entry.kind is Device ==> v.size == 0
            &&& entry.kind is File ==> v.data == (DataView::File { extent_root: zero_id() })
            &&& entry.kind is Directory ==> v.data == (DataView::Directory { dir_root: zero_id() })
            &&& entry.kind is File ==> v.mode & S_IFMT == S_IFREG && v.size == 0
            &&& entry.kind is Directory ==> v.mode & S_IFMT == S_IFDIR && v.size == 0
            &&& !(entry.kind is Symlink) ==> v.mode & S_IPERM == entry.mode & S_IPERM
            &&& entry.kind matches EntryKind::Symlink(t) ==> v.mode & S_IFMT == S_IFLNK && v.data
                == (DataView::Symlink { target: t@ }) && (t@.len() <= u32::MAX ==> v.size
                == t@.len())
            &&& entry.kind matches EntryKind::Device(is_char, rdev) ==> v.rdev == rdev && v.mode
                & S_IFMT == (if is_char {
                S_IFCHR
            } else {
                S_IFBLK
            }) && v.data is Device
        }),
{
    let m = entry.mode;
    assert((0o100000u32 | (m & 0o7777u32)) & 0o170000u32 == 0o100000u32) by (bit_vector);
    assert((0o040000u32 | (m & 0o7777u32)) & 0o170000u32 == 0o040000u32) by (bit_vector);
    assert((0o120000u32 | 0o777u32) & 0o170000u32 == 0o120000u32) by (bit_vector);
    assert((0o020000u32 | (m & 0o7777u32)) & 0o170000u32 == 0o020000u32) by (bit_vector);
    assert((0o060000u32 | (m & 0o7777u32)) & 0o170000u32 == 0o060000u32) by (bit_vector);
    assert((0o100000u32 | (m & 0o7777u32)) & 0o7777u32 == m & 0o7777u32) by (bit_vector);
    assert((0o040000u32 | (m & 0o7777u32)) & 0o7777u32 == m & 0o7777u32) by (bit_vector);
    assert((0o020000u32 | (m & 0o7777u32)) & 0o7777u32 == m & 0o7777u32) by (bit_vector);
    assert((0o060000u32 | (m & 0o7777u32)) & 0o7777u32 == m & 0o7777u32) by (bit_vector);
}

/// A create adds its one name to the names of the new inode, and to no other. The directory
/// is changed now and counts a new directory in; no inode but these two changes.
#[verifier::rlimit(40)]
#[verifier::spinoff_prover]
pub proof fn create_adds_one_name(
    n: Namespace,
    parent: u64,
    name: Seq<u8>,
    ino: u64,
    entry: NewEntry,
    now: Timespec,
    x: u64,
)
    requires
        sound(n),
        !create_refused(n, parent, name),
        !n.contains_key(ino),
    ensures
        ({
            let v = rootless(entry_inode(entry, now));
            let m = created(n, parent, name, ino, v, entry_type(entry.kind), now);
            &&& names_of(m, x) == if x == ino {
                names_of(n, x).insert((parent, name))
            } else {
                names_of(n, x)
            }
            &&& names_of(m, ino) == set![(parent, name)]
            &&& m.dom() == n.dom().insert(ino)
            &&& x != parent && x != ino ==> m[x] == n[x]
            &&& m[ino].inode == v && m[ino].entries.len() == 0 && m[ino].xattrs.len() == 0
            &&& m[parent].xattrs == n[parent].xattrs
            &&& m[parent].inode.mtime == now
            &&& m[parent].inode == (InodeView {
                mtime: now,
                nlink: m[parent].inode.nlink,
                ..n[parent].inode
            })
            &&& n[parent].inode.nlink < u32::MAX ==> m[parent].inode.nlink == n[parent].inode.nlink
                + (if entry.kind is Directory {
                1int
            } else {
                0
            })
            &&& sound(m)
        }),
{
    let v = rootless(entry_inode(entry, now));
    let d_type = entry_type(entry.kind);
    let e = DirEntry { ino, d_type };
    let m = created(n, parent, name, ino, v, d_type, now);
    new_inode_is_as_asked(entry, now);
    assert(parent != ino);
    assert(m.dom() =~= n.dom().insert(ino));
    assert forall|d: u64, q: Seq<u8>, y: u64| #[trigger] named(m, d, q, y) == (named(n, d, q, y)
        || d == parent && q == name && y == ino) by {
        lemma_bound(n[parent].entries, name, e, q);
        lemma_no_entries(q);
    }
    assert forall|y: u64| #[trigger] names_of(m, y) =~= (if y == ino {
        names_of(n, y).insert((parent, name))
    } else {
        names_of(n, y)
    }) by {}
    assert(names_of(n, ino) =~= Set::empty());
    assert(names_of(m, ino) =~= set![(parent, name)]);
    lemma_bound(n[parent].entries, name, e, name);
    assert forall|i: u64| #[trigger] m.contains_key(i) implies links_count(m, i) by {
        assert(names_of(m, i) == (if i == ino {
            names_of(n, i).insert((parent, name))
        } else {
            names_of(n, i)
        }));
        if i != ino {
            assert(n.contains_key(i));
        }
    }
    assert forall|i: u64| !(#[trigger] m.contains_key(i)) implies names_of(m, i)
        =~= Set::empty() by {
        assert(!n.contains_key(i));
    }
    assert(kinds_agree(m));
    assert(in_order(m));
}

// ---------------------------------------------------------------------------
// Unlink
// ---------------------------------------------------------------------------

/// An unlink takes away its one name and no other. A file with further names stays, with
/// one link less and nothing else changed; one without is gone, and so is a removed
/// directory. The directory is changed now; no other inode is.
#[verifier::rlimit(60)]
#[verifier::spinoff_prover]
pub proof fn unlink_takes_one_name(
    n: Namespace,
    parent: u64,
    name: Seq<u8>,
    rmdir: bool,
    now: Timespec,
    x: u64,
)
    requires
        sound(n),
        !unlink_refused(n, parent, name, rmdir),
        child_of(n, parent, name) != parent,
    ensures
        ({
            let m = unlinked(n, parent, name, rmdir, now);
            let c = child_of(n, parent, name);
            &&& names_of(m, x) == if x == c {
                names_of(n, x).remove((parent, name))
            } else {
                names_of(n, x)
            }
            &&& m.contains_key(c) == (names_of(n, c).len() > 1)
            &&& m.contains_key(c) ==> m[c].inode.nlink == n[c].inode.nlink - 1 && m[c].inode
                == (InodeView { nlink: m[c].inode.nlink, ..n[c].inode }) && m[c].entries
                == n[c].entries && m[c].xattrs == n[c].xattrs
            &&& x != c ==> m.contains_key(x) == n.contains_key(x)
            &&& x != c && x != parent ==> m[x] == n[x]
            &&& m[parent].xattrs == n[parent].xattrs
            &&& m[parent].inode == (InodeView {
                mtime: now,
                nlink: m[parent].inode.nlink,
                ..n[parent].inode
            })
            &&& n[parent].inode.nlink > 0 ==> m[parent].inode.nlink == n[parent].inode.nlink - (
            if is_dir(n[c].inode) {
                1int
            } else {
                0
            })
            &&& sound(m)
        }),
{
    let m = unlinked(n, parent, name, rmdir, now);
    let c = child_of(n, parent, name);
    assert(n.contains_key(c));
    assert(links_count(n, c));
    assert(names_of(n, c).contains((parent, name)));
    assert(names_of(n, c).len() >= 1) by {
        if names_of(n, c).len() == 0 {
            assert(names_of(n, c) =~= Set::empty());
        }
    }
    assert forall|d: u64, q: Seq<u8>, y: u64| #[trigger] named(m, d, q, y) == (named(n, d, q, y)
        && !(d == parent && q == name)) by {
        lemma_unbound(n[parent].entries, name, q);
        if d == c {
            if has_dir(n, c) {
                assert(n[c].entries =~= Seq::empty());
                lemma_no_entries(q);
            }
        }
    }
    assert forall|y: u64| #[trigger] names_of(m, y) =~= (if y == c {
        names_of(n, y).remove((parent, name))
    } else {
        names_of(n, y)
    }) by {}
    lemma_unbound(n[parent].entries, name, name);
    assert forall|i: u64| #[trigger] m.contains_key(i) implies links_count(m, i) by {
        assert(names_of(m, i) == (if i == c {
            names_of(n, i).remove((parent, name))
        } else {
            names_of(n, i)
        }));
        assert(n.contains_key(i));
        assert(links_count(n, i));
    }
    assert forall|i: u64| !(#[trigger] m.contains_key(i)) implies names_of(m, i)
        =~= Set::empty() by {
        if i == c {
            assert(names_of(m, i) == names_of(n, i).remove((parent, name)));
            assert(names_of(n, c).len() <= 1);
            assert(names_of(m, i).len() == 0);
        } else {
            assert(!n.contains_key(i));
            assert(names_of(m, i) == names_of(n, i));
        }
    }
    assert(kinds_agree(m));
    assert(in_order(m));
}

// ---------------------------------------------------------------------------
// Link
// ---------------------------------------------------------------------------

/// A link adds its one name and counts it; nothing else of the inode changes, and no inode
/// but it and the directory.
#[verifier::rlimit(40)]
#[verifier::spinoff_prover]
pub proof fn link_adds_one_name(
    n: Namespace,
    parent: u64,
    name: Seq<u8>,
    ino: u64,
    now: Timespec,
    x: u64,
)
    requires
        sound(n),
        !link_refused(n, parent, name, ino),
        n[ino].inode.nlink < u32::MAX,
    ensures
        ({
            let m = linked(n, parent, name, ino, now);
            &&& names_of(m, x) == if x == ino {
                names_of(n, x).insert((parent, name))
            } else {
                names_of(n, x)
            }
            &&& !named(n, parent, name, ino)
            &&& m.dom() == n.dom()
            &&& x != ino && x != parent ==> m[x] == n[x]
            &&& m[ino].inode == (InodeView { nlink: m[ino].inode.nlink, ..n[ino].inode })
            &&& m[ino].inode.nlink == n[ino].inode.nlink + 1
            &&& m[ino].entries == n[ino].entries && m[ino].xattrs == n[ino].xattrs
            &&& m[parent].xattrs == n[parent].xattrs
            &&& m[parent].inode == (InodeView { mtime: now, ..n[parent].inode })
            &&& sound(m)
        }),
{
    let m = linked(n, parent, name, ino, now);
    let e = DirEntry { ino, d_type: link_type(n[ino].inode.data) };
    assert(ino != parent);
    assert(m.dom() =~= n.dom());
    assert forall|d: u64, q: Seq<u8>, y: u64| #[trigger] named(m, d, q, y) == (named(n, d, q, y)
        || d == parent && q == name && y == ino) by {
        lemma_bound(n[parent].entries, name, e, q);
    }
    assert forall|y: u64| #[trigger] names_of(m, y) =~= (if y == ino {
        names_of(n, y).insert((parent, name))
    } else {
        names_of(n, y)
    }) by {}
    lemma_bound(n[parent].entries, name, e, name);
    assert(!names_of(n, ino).contains((parent, name)));
    assert forall|i: u64| #[trigger] m.contains_key(i) implies links_count(m, i) by {
        assert(names_of(m, i) == (if i == ino {
            names_of(n, i).insert((parent, name))
        } else {
            names_of(n, i)
        }));
        assert(n.contains_key(i));
        assert(links_count(n, i));
    }
    assert forall|i: u64| !(#[trigger] m.contains_key(i)) implies names_of(m, i)
        =~= Set::empty() by {
        assert(!n.contains_key(i));
    }
    assert(kinds_agree(m));
    assert(in_order(m));
}

// ---------------------------------------------------------------------------
// Rename
// ---------------------------------------------------------------------------

/// The old and the new name do not already stand for one inode.
pub open spec fn moves_apart(
    n: Namespace,
    src_parent: u64,
    src_name: Seq<u8>,
    dst_parent: u64,
    dst_name: Seq<u8>,
) -> bool {
    !named(n, dst_parent, dst_name, moved(n, src_parent, src_name).ino)
}

/// A rename moves one name of the inode to the other. Of what the other name stood for it
/// takes that one name and no more: a file with further names stays, with one link less and
/// the same data; it is gone only where no name is left. Nothing else is gone, and no inode
/// changes but the two directories and the one replaced.
#[verifier::rlimit(80)]
#[verifier::spinoff_prover]
pub proof fn rename_moves_one_name(
    n: Namespace,
    src_parent: u64,
    src_name: Seq<u8>,
    dst_parent: u64,
    dst_name: Seq<u8>,
    now: Timespec,
    x: u64,
)
    requires
        sound(n),
        !rename_refused(n, src_parent, src_name, dst_parent, dst_name),
        moves_apart(n, src_parent, src_name, dst_parent, dst_name),
        !named(n, dst_parent, dst_name, src_parent),
        !named(n, dst_parent, dst_name, dst_parent),
    ensures
        ({
            let m = renamed(n, src_parent, src_name, dst_parent, dst_name, now);
            let e = moved(n, src_parent, src_name).ino;
            &&& names_of(m, x) == if x == e {
                names_of(n, x).remove((src_parent, src_name)).insert((dst_parent, dst_name))
            } else {
                names_of(n, x).remove((dst_parent, dst_name))
            }
            &&& !named(n, dst_parent, dst_name, x) ==> m.contains_key(x) == n.contains_key(x)
            &&& named(n, dst_parent, dst_name, x) ==> {
                &&& m.contains_key(x) == (names_of(n, x).len() > 1)
                &&& m.contains_key(x) ==> m[x].inode.nlink == n[x].inode.nlink - 1 && m[x].inode
                    == (InodeView { nlink: m[x].inode.nlink, ..n[x].inode }) && m[x].entries
                    == n[x].entries && m[x].xattrs == n[x].xattrs
            }
            &&& x != src_parent && x != dst_parent && !named(n, dst_parent, dst_name, x) ==> m[x]
                == n[x]
            &&& x == src_parent || x == dst_parent ==> m[x].xattrs == n[x].xattrs && m[x].inode
                == (InodeView { mtime: now, nlink: m[x].inode.nlink, ..n[x].inode })
            &&& src_parent == dst_parent || !is_dir(n[e].inode) ==> (x == src_parent || x
                == dst_parent ==> m[x].inode.nlink == n[x].inode.nlink)
            &&& src_parent != dst_parent && is_dir(n[e].inode) ==> {
                &&& n[src_parent].inode.nlink > 0 ==> m[src_parent].inode.nlink
                    == n[src_parent].inode.nlink - 1
                &&& n[dst_parent].inode.nlink < u32::MAX ==> m[dst_parent].inode.nlink
                    == n[dst_parent].inode.nlink + 1
            }
            &&& sound(m)
        }),
{
    let m = renamed(n, src_parent, src_name, dst_parent, dst_name, now);
    let ent = moved(n, src_parent, src_name);
    let e = ent.ino;
    let r = replaced(n, src_parent, src_name, dst_parent, dst_name);
    assert(n.contains_key(e));
    assert(named(n, src_parent, src_name, e));
    assert(!(src_parent == dst_parent && src_name == dst_name));
    if let Some(d) = r {
        assert(named(n, dst_parent, dst_name, d));
        assert(n.contains_key(d));
        assert(links_count(n, d));
        assert(names_of(n, d).contains((dst_parent, dst_name)));
        assert(names_of(n, d).len() >= 1) by {
            if names_of(n, d).len() == 0 {
                assert(names_of(n, d) =~= Set::empty());
            }
        }
        if is_dir(n[d].inode) {
            assert(n[d].entries =~= Seq::empty());
        }
    }
    assert forall|y: u64| #[trigger] named(n, dst_parent, dst_name, y) == (r == Some(y)) by {}
    assert forall|d: u64, q: Seq<u8>, y: u64| #[trigger] named(m, d, q, y) == (if d == dst_parent
        && q == dst_name {
        y == e
    } else {
        named(n, d, q, y) && !(d == src_parent && q == src_name)
    }) by {
        lemma_no_entries(q);
        if src_parent == dst_parent {
            let u = upsert(n[src_parent].entries, dst_name, entry_bytes(ent));
            lemma_bound(n[src_parent].entries, dst_name, ent, q);
            lemma_unbound(u, src_name, q);
        } else {
            lemma_unbound(n[src_parent].entries, src_name, q);
            lemma_bound(n[dst_parent].entries, dst_name, ent, q);
        }
    }
    assert forall|y: u64| #[trigger] names_of(m, y) =~= (if y == e {
        names_of(n, y).remove((src_parent, src_name)).insert((dst_parent, dst_name))
    } else {
        names_of(n, y).remove((dst_parent, dst_name))
    }) by {}
    lemma_bound(n[src_parent].entries, dst_name, ent, dst_name);
    lemma_unbound(upsert(n[src_parent].entries, dst_name, entry_bytes(ent)), src_name, src_name);
    lemma_unbound(n[src_parent].entries, src_name, src_name);
    lemma_bound(n[dst_parent].entries, dst_name, ent, dst_name);
    assert(in_order(m));
    assert(kinds_agree(m));
    assert forall|i: u64| #[trigger] m.contains_key(i) implies links_count(m, i) by {
        assert(n.contains_key(i));
        assert(links_count(n, i));
        if i == e {
            assert(names_of(m, i) == names_of(n, i).remove((src_parent, src_name)).insert(
                (dst_parent, dst_name),
            ));
            assert(names_of(n, i).contains((src_parent, src_name)));
            assert(!names_of(n, i).contains((dst_parent, dst_name)));
        } else {
            assert(names_of(m, i) == names_of(n, i).remove((dst_parent, dst_name)));
            if r != Some(i) {
                assert(!names_of(n, i).contains((dst_parent, dst_name)));
                assert(names_of(m, i) =~= names_of(n, i));
            }
        }
    }
    assert forall|i: u64| !(#[trigger] m.contains_key(i)) implies names_of(m, i)
        =~= Set::empty() by {
        if r == Some(i) {
            assert(names_of(m, i) == names_of(n, i).remove((dst_parent, dst_name)));
            assert(names_of(n, i).len() <= 1);
            assert(names_of(m, i).len() == 0);
        } else {
            assert(!n.contains_key(i));
            assert(names_of(n, i) =~= Set::empty());
        }
    }
}

/// A name renamed onto itself changes nothing.
pub proof fn rename_onto_itself_changes_nothing(
    n: Namespace,
    parent: u64,
    name: Seq<u8>,
    now: Timespec,
)
    ensures
        renamed(n, parent, name, parent, name, now) == n,
{
}

} // verus!
