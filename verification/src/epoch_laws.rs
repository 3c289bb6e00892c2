//! What the epoch promises: the overlay after an operation is what replaying
//! the operation's record makes of the overlay before it.

use vstd::prelude::*;

use crate::directory::{entry_bytes, DirEntry};
use crate::epoch::{base_xattrs, faces, lemma_erase_at, lemma_upsert_at, mapped, overlaid, shown,
    shown_entries, shown_inode, slot, Epoch, Overlay};
use crate::epoch_ops::{child_staged, create_staged, extents_over, inode_over, inode_staged,
    link_left, rename_staged, unlink_staged};
use crate::extent_tree::extent_key_of;
use crate::fs::{contents_ok, data_root, entry_at, lemma_ino_key, lemma_ns_at, rootless, Listing,
    Namespace};
use crate::index::ObjectProvider;
use crate::inode::InodeView;
use crate::io::IoBackend;
use crate::namespace::{has_dir, is_dir, one_less};
use crate::overlay::{dir_shown, entry_over, file_shown, kind_kept, lemma_entry_over, overlay_ok,
    overlays};
use crate::replay::{adopts, applicable, applied, bare, child_put, dir_edited, entry_moved,
    extents_with, item_under, meta_put, replaced_dropped, same_kind, Event};
use crate::sorted::{erase, lookup, sorted, upsert};
use crate::transaction::Tx;

verus! {

/// Every number lists its contents in key order.
pub open spec fn ordered(n: Namespace) -> bool {
    forall|i: u64| #[trigger]
        n.contains_key(i) ==> sorted(n[i].entries) && contents_ok(n[i].inode.data, n[i].entries)
}

/// An inode can stand for a number: of the committed kind, or new and without
/// trees.
pub open spec fn stands(n: Namespace, ino: u64, v: InodeView) -> bool {
    if n.contains_key(ino) {
        same_kind(n[ino].inode.data, v.data)
    } else {
        bare(v)
    }
}

/// `m` is what the overlay shows of `n`.
pub open spec fn mirrors(m: Namespace, n: Namespace, o: Overlay) -> bool {
    &&& ordered(m)
    &&& ordered(n)
    &&& overlay_ok(n, o)
    &&& faces(m) == overlaid(n, o)
}

pub(crate) proof fn lemma_mapped_upsert(s: Listing, k: Seq<u8>, v: Seq<u8>)
    requires
        sorted(s),
    ensures
        mapped(upsert(s, k, v)) == mapped(s).insert(k, v),
        sorted(upsert(s, k, v)),
{
    lemma_upsert_at(s, k, v);
    assert(mapped(upsert(s, k, v)) =~= mapped(s).insert(k, v));
}

proof fn lemma_mapped_erase(s: Listing, k: Seq<u8>)
    requires
        sorted(s),
    ensures
        mapped(erase(s, k)) == mapped(s).remove(k),
        sorted(erase(s, k)),
{
    lemma_erase_at(s, k);
    assert(mapped(erase(s, k)) =~= mapped(s).remove(k));
}

/// What a mirrored number is.
pub(crate) proof fn lemma_mirror(m: Namespace, n: Namespace, o: Overlay, ino: u64)
    requires
        mirrors(m, n, o),
    ensures
        m.contains_key(ino) == shown(n, o, ino),
        m.contains_key(ino) ==> {
            &&& m[ino].inode == shown_inode(n, o, ino)
            &&& mapped(m[ino].entries) == shown_entries(n, o, ino)
            &&& m[ino].xattrs == base_xattrs(n, ino)
            &&& sorted(m[ino].entries)
        },
{
    assert(faces(m).contains_key(ino) == overlaid(n, o).contains_key(ino));
    if m.contains_key(ino) {
        assert(faces(m)[ino] == overlaid(n, o)[ino]);
    }
}

/// What an overlay shows is decided number by number.
pub(crate) proof fn lemma_faces(m: Namespace, n: Namespace, o: Overlay)
    requires
        forall|i: u64| #[trigger] m.contains_key(i) == shown(n, o, i),
        forall|i: u64| #[trigger]
            m.contains_key(i) ==> {
                &&& m[i].inode == shown_inode(n, o, i)
                &&& mapped(m[i].entries) == shown_entries(n, o, i)
                &&& m[i].xattrs == base_xattrs(n, i)
            },
    ensures
        faces(m) == overlaid(n, o),
{
    assert forall|i: u64| faces(m).contains_key(i) == #[trigger] overlaid(n, o).contains_key(i) by {
        assert(m.contains_key(i) == shown(n, o, i));
    }
    assert forall|i: u64| #[trigger] faces(m).contains_key(i) implies faces(m)[i] == overlaid(
        n,
        o,
    )[i] by {
        assert(m.contains_key(i));
    }
    assert(faces(m).dom() =~= overlaid(n, o).dom());
    assert(faces(m) =~= overlaid(n, o));
}

proof fn lemma_empty_listing()
    ensures
        mapped(Seq::empty()) == Map::<Seq<u8>, Seq<u8>>::empty(),
        sorted(Seq::<(Seq<u8>, Seq<u8>)>::empty()),
{
    let s: Listing = Seq::empty();
    assert forall|k: Seq<u8>| #[trigger] lookup(s, k) is None by {
        assert(crate::sorted::rank(s, k) == 0);
    }
    assert(mapped(s) =~= Map::empty());
}

/// Before anything is staged the overlay shows the committed namespace.
pub proof fn empty_overlay_shows_committed(n: Namespace)
    requires
        ordered(n),
    ensures
        mirrors(n, n, crate::epoch::empty_overlay()),
{
    let o = crate::epoch::empty_overlay();
    assert forall|i: u64| #[trigger] n.contains_key(i) implies {
        &&& n[i].inode == shown_inode(n, o, i)
        &&& mapped(n[i].entries) == shown_entries(n, o, i)
        &&& n[i].xattrs == base_xattrs(n, i)
    } by {
        assert(mapped(n[i].entries) =~= shown_entries(n, o, i));
    }
    lemma_faces(n, n, o);
}

/// A create: the overlay shows what its record makes of the namespace.
#[verifier::rlimit(60)]
pub proof fn create_is_shown(
    m: Namespace,
    n: Namespace,
    o: Overlay,
    parent: u64,
    name: Seq<u8>,
    ino: u64,
    d_type: u8,
    inode: InodeView,
    parent_inode: InodeView,
)
    requires
        mirrors(m, n, o),
        dir_shown(n, o, parent),
        name.len() <= 255,
        !n.contains_key(ino),
        !o.inodes.contains_key(ino),
        !o.gone.contains(ino),
        bare(inode),
        stands(n, parent, parent_inode),
        parent_inode.data is Directory,
    ensures
        ({
            let e = Event::Create { parent, name, ino, d_type, inode, parent_inode };
            let next = create_staged(o, parent, name, ino, d_type, inode, parent_inode);
            &&& applicable(m, e)
            &&& mirrors(applied(m, e), n, next)
        }),
{
    let e = Event::Create { parent, name, ino, d_type, inode, parent_inode };
    let next = create_staged(o, parent, name, ino, d_type, inode, parent_inode);
    let entry = DirEntry { ino, d_type };
    lemma_mirror(m, n, o, parent);
    lemma_mirror(m, n, o, ino);
    assert(parent != ino);
    let r = applied(m, e);
    lemma_empty_listing();
    let s = m[parent].entries;
    lemma_mapped_upsert(s, name, entry_bytes(entry));
    crate::fs::lemma_entries_upsert(s, name, entry);
    assert forall|i: u64| #[trigger] r.contains_key(i) == shown(n, next, i) by {
        lemma_mirror(m, n, o, i);
    }
    assert forall|i: u64| #[trigger] r.contains_key(i) implies {
        &&& r[i].inode == shown_inode(n, next, i)
        &&& mapped(r[i].entries) == shown_entries(n, next, i)
        &&& r[i].xattrs == base_xattrs(n, i)
    } by {
        lemma_mirror(m, n, o, i);
        if i == parent {
            assert(shown_entries(n, next, i) =~= shown_entries(n, o, i).insert(
                name,
                entry_bytes(entry),
            ));
        } else if i == ino {
            assert(shown_entries(n, next, i) =~= Map::empty());
        } else {
            assert(r[i] == m[i]);
            assert(shown_entries(n, next, i) =~= shown_entries(n, o, i));
        }
    }
    lemma_faces(r, n, next);
    assert(overlay_ok(n, next)) by {
        assert forall|i: u64| #[trigger] next.inodes.contains_key(i) implies kind_kept(
            n,
            next,
            i,
        ) by {
            if i != parent && i != ino {
                assert(kind_kept(n, o, i));
            }
        }
        assert forall|p: (u64, Seq<u8>)| #[trigger] next.names.contains_key(p) implies p.1.len()
            <= 255 && next.inodes.contains_key(p.0) && next.inodes[p.0].data is Directory
            && !next.cuts.contains(p) by {
            if p != (parent, name) {
                assert(o.names.contains_key(p));
            }
        }
        assert forall|p: (u64, Seq<u8>)| #[trigger] next.cuts.contains(
            p,
        ) implies next.inodes.contains_key(p.0) && next.inodes[p.0].data is Directory by {
            assert(o.cuts.contains(p));
        }
        assert forall|p: (u64, Seq<u8>)| #[trigger] next.extents.contains_key(p) implies p.1.len()
            == 8 && next.extents[p].len() <= u32::MAX && next.inodes.contains_key(p.0)
            && next.inodes[p.0].data is File by {
            assert(o.extents.contains_key(p));
            if p.0 == parent {
                assert(o.inodes[parent].data is File);
            }
        }
    }
    assert(ordered(r)) by {
        assert forall|i: u64| #[trigger] r.contains_key(i) implies sorted(r[i].entries)
            && contents_ok(r[i].inode.data, r[i].entries) by {
            if i != parent && i != ino {
                assert(r[i] == m[i]);
                assert(m.contains_key(i));
            }
        }
    }
}

/// An attribute update: the overlay shows what its record makes of the
/// namespace.
#[verifier::rlimit(40)]
pub proof fn setattr_is_shown(m: Namespace, n: Namespace, o: Overlay, ino: u64, inode: InodeView)
    requires
        mirrors(m, n, o),
        shown(n, o, ino),
        stands(n, ino, inode),
        same_kind(shown_inode(n, o, ino).data, inode.data),
    ensures
        ({
            let e = Event::Setattr { ino, inode };
            let next = inode_staged(o, ino, inode);
            &&& applicable(m, e)
            &&& mirrors(applied(m, e), n, next)
        }),
{
    let e = Event::Setattr { ino, inode };
    let next = inode_staged(o, ino, inode);
    let r = applied(m, e);
    lemma_mirror(m, n, o, ino);
    assert forall|i: u64| #[trigger] r.contains_key(i) == shown(n, next, i) by {
        lemma_mirror(m, n, o, i);
    }
    assert forall|i: u64| #[trigger] r.contains_key(i) implies {
        &&& r[i].inode == shown_inode(n, next, i)
        &&& mapped(r[i].entries) == shown_entries(n, next, i)
        &&& r[i].xattrs == base_xattrs(n, i)
    } by {
        lemma_mirror(m, n, o, i);
        assert(shown_entries(n, next, i) =~= shown_entries(n, o, i));
    }
    lemma_faces(r, n, next);
    lemma_inode_staged_ok(n, o, ino, inode);
    assert forall|i: u64| #[trigger] r.contains_key(i) implies sorted(r[i].entries) && contents_ok(
        r[i].inode.data,
        r[i].entries,
    ) by {
        assert(m.contains_key(i));
    }
}

/// Metadata of the shown kind keeps the overlay in order.
proof fn lemma_inode_staged_ok(n: Namespace, o: Overlay, ino: u64, inode: InodeView)
    requires
        overlay_ok(n, o),
        stands(n, ino, inode),
        o.inodes.contains_key(ino) ==> same_kind(o.inodes[ino].data, inode.data),
    ensures
        overlay_ok(n, inode_staged(o, ino, inode)),
{
    let next = inode_staged(o, ino, inode);
    assert forall|i: u64| #[trigger] next.inodes.contains_key(i) implies kind_kept(n, next, i) by {
        if i != ino {
            assert(kind_kept(n, o, i));
        }
    }
    assert forall|p: (u64, Seq<u8>)| #[trigger] next.names.contains_key(p) implies p.1.len() <= 255
        && next.inodes.contains_key(p.0) && next.inodes[p.0].data is Directory
        && !next.cuts.contains(p) by {
        assert(o.names.contains_key(p));
    }
    assert forall|p: (u64, Seq<u8>)| #[trigger] next.cuts.contains(
        p,
    ) implies next.inodes.contains_key(p.0) && next.inodes[p.0].data is Directory by {
        assert(o.cuts.contains(p));
    }
    assert forall|p: (u64, Seq<u8>)| #[trigger] next.extents.contains_key(p) implies p.1.len() == 8
        && next.extents[p].len() <= u32::MAX && next.inodes.contains_key(p.0)
        && next.inodes[p.0].data is File by {
        assert(o.extents.contains_key(p));
    }
}

/// Binding a name or unbinding one in a directory with a pending inode keeps the
/// overlay in order.
proof fn lemma_names_ok(
    n: Namespace,
    o: Overlay,
    dir: u64,
    name: Seq<u8>,
    bind: Option<DirEntry>,
)
    requires
        overlay_ok(n, o),
        o.inodes.contains_key(dir),
        o.inodes[dir].data is Directory,
        name.len() <= 255,
    ensures
        overlay_ok(n, name_staged(o, dir, name, bind)),
{
    let next = name_staged(o, dir, name, bind);
    assert forall|i: u64| #[trigger] next.inodes.contains_key(i) implies kind_kept(n, next, i) by {
        assert(kind_kept(n, o, i));
    }
    assert forall|p: (u64, Seq<u8>)| #[trigger] next.names.contains_key(p) implies p.1.len() <= 255
        && next.inodes.contains_key(p.0) && next.inodes[p.0].data is Directory
        && !next.cuts.contains(p) by {
        if p != (dir, name) {
            assert(o.names.contains_key(p));
        }
    }
    assert forall|p: (u64, Seq<u8>)| #[trigger] next.cuts.contains(
        p,
    ) implies next.inodes.contains_key(p.0) && next.inodes[p.0].data is Directory by {
        if p != (dir, name) {
            assert(o.cuts.contains(p));
        }
    }
    assert forall|p: (u64, Seq<u8>)| #[trigger] next.extents.contains_key(p) implies p.1.len() == 8
        && next.extents[p].len() <= u32::MAX && next.inodes.contains_key(p.0)
        && next.inodes[p.0].data is File by {
        assert(o.extents.contains_key(p));
    }
}

/// The overlay with a name bound or unbound.
pub open spec fn name_staged(
    o: Overlay,
    dir: u64,
    name: Seq<u8>,
    bind: Option<DirEntry>,
) -> Overlay {
    match bind {
        Some(e) => Overlay {
            names: o.names.insert((dir, name), e),
            cuts: o.cuts.remove((dir, name)),
            ..o
        },
        None => Overlay {
            names: o.names.remove((dir, name)),
            cuts: o.cuts.insert((dir, name)),
            ..o
        },
    }
}

/// A step: metadata and an entry of a directory.
#[verifier::rlimit(60)]
proof fn lemma_dir_step(
    m: Namespace,
    n: Namespace,
    o: Overlay,
    dir: u64,
    v: InodeView,
    name: Seq<u8>,
    bind: Option<DirEntry>,
)
    requires
        mirrors(m, n, o),
        dir_shown(n, o, dir),
        stands(n, dir, v),
        v.data is Directory,
        name.len() <= 255,
    ensures
        ({
            let next = name_staged(inode_staged(o, dir, v), dir, name, bind);
            let r = match bind {
                Some(e) => dir_edited(m, dir, v, Some((name, e)), None),
                None => dir_edited(m, dir, v, None, Some(name)),
            };
            mirrors(r, n, next)
        }),
{
    let mid = inode_staged(o, dir, v);
    let next = name_staged(mid, dir, name, bind);
    let r = match bind {
        Some(e) => dir_edited(m, dir, v, Some((name, e)), None),
        None => dir_edited(m, dir, v, None, Some(name)),
    };
    lemma_mirror(m, n, o, dir);
    lemma_inode_staged_ok(n, o, dir, v);
    lemma_names_ok(n, mid, dir, name, bind);
    let s = m[dir].entries;
    match bind {
        Some(e) => {
            lemma_mapped_upsert(s, name, entry_bytes(e));
            crate::fs::lemma_entries_upsert(s, name, e);
        },
        None => {
            lemma_mapped_erase(s, name);
            crate::fs::lemma_entries_erase(s, name);
        },
    }
    assert forall|i: u64| #[trigger] r.contains_key(i) == shown(n, next, i) by {
        lemma_mirror(m, n, o, i);
    }
    assert forall|i: u64| #[trigger] r.contains_key(i) implies {
        &&& r[i].inode == shown_inode(n, next, i)
        &&& mapped(r[i].entries) == shown_entries(n, next, i)
        &&& r[i].xattrs == base_xattrs(n, i)
    } by {
        lemma_mirror(m, n, o, i);
        if i == dir {
            match bind {
                Some(e) => assert(shown_entries(n, next, i) =~= shown_entries(n, o, i).insert(
                    name,
                    entry_bytes(e),
                )),
                None => assert(shown_entries(n, next, i) =~= shown_entries(n, o, i).remove(name)),
            }
        } else {
            assert(r[i] == m[i]);
            assert(shown_entries(n, next, i) =~= shown_entries(n, o, i));
        }
    }
    lemma_faces(r, n, next);
    assert forall|i: u64| #[trigger] r.contains_key(i) implies sorted(r[i].entries) && contents_ok(
        r[i].inode.data,
        r[i].entries,
    ) by {
        assert(m.contains_key(i));
    }
}

/// A step: a number goes.
#[verifier::rlimit(40)]
proof fn lemma_gone_step(m: Namespace, n: Namespace, o: Overlay, ino: u64)
    requires
        mirrors(m, n, o),
    ensures
        mirrors(m.remove(ino), n, child_staged(o, ino, None)),
{
    let next = child_staged(o, ino, None);
    let r = m.remove(ino);
    assert forall|i: u64| #[trigger] r.contains_key(i) == shown(n, next, i) by {
        lemma_mirror(m, n, o, i);
    }
    assert forall|i: u64| #[trigger] r.contains_key(i) implies {
        &&& r[i].inode == shown_inode(n, next, i)
        &&& mapped(r[i].entries) == shown_entries(n, next, i)
        &&& r[i].xattrs == base_xattrs(n, i)
    } by {
        lemma_mirror(m, n, o, i);
        assert(shown_entries(n, next, i) =~= shown_entries(n, o, i));
    }
    lemma_faces(r, n, next);
    assert forall|i: u64| #[trigger] r.contains_key(i) implies sorted(r[i].entries) && contents_ok(
        r[i].inode.data,
        r[i].entries,
    ) by {
        assert(m.contains_key(i));
    }
    assert(overlay_ok(n, next)) by {
        assert forall|i: u64| #[trigger] next.inodes.contains_key(i) implies kind_kept(
            n,
            next,
            i,
        ) by {
            assert(kind_kept(n, o, i));
        }
        assert forall|p: (u64, Seq<u8>)| #[trigger] next.names.contains_key(p) implies p.1.len()
            <= 255 && next.inodes.contains_key(p.0) && next.inodes[p.0].data is Directory
            && !next.cuts.contains(p) by {
            assert(o.names.contains_key(p));
        }
        assert forall|p: (u64, Seq<u8>)| #[trigger] next.cuts.contains(
            p,
        ) implies next.inodes.contains_key(p.0) && next.inodes[p.0].data is Directory by {
            assert(o.cuts.contains(p));
        }
        assert forall|p: (u64, Seq<u8>)| #[trigger] next.extents.contains_key(p) implies p.1.len()
            == 8 && next.extents[p].len() <= u32::MAX && next.inodes.contains_key(p.0)
            && next.inodes[p.0].data is File by {
            assert(o.extents.contains_key(p));
        }
    }
}

/// A step: what is left of a number, staged.
proof fn lemma_child_step(
    m: Namespace,
    n: Namespace,
    o: Overlay,
    ino: u64,
    left: Option<InodeView>,
)
    requires
        mirrors(m, n, o),
        left matches Some(v) ==> shown(n, o, ino) && stands(n, ino, v) && same_kind(
            shown_inode(n, o, ino).data,
            v.data,
        ),
    ensures
        mirrors(child_put(m, ino, left), n, child_staged(o, ino, left)),
        left matches Some(v) ==> adopts(m, ino, v),
{
    match left {
        Some(v) => {
            setattr_is_shown(m, n, o, ino, v);
        },
        None => lemma_gone_step(m, n, o, ino),
    }
}

/// An unlink: the overlay shows what its record makes of the namespace.
#[verifier::rlimit(60)]
pub proof fn unlink_is_shown(
    m: Namespace,
    n: Namespace,
    o: Overlay,
    parent: u64,
    name: Seq<u8>,
    child: u64,
    left: Option<InodeView>,
    parent_inode: InodeView,
)
    requires
        mirrors(m, n, o),
        dir_shown(n, o, parent),
        name.len() <= 255,
        child != parent,
        shown(n, o, child),
        stands(n, parent, parent_inode),
        parent_inode.data is Directory,
        left matches Some(v) ==> stands(n, child, v) && same_kind(
            shown_inode(n, o, child).data,
            v.data,
        ),
    ensures
        ({
            let e = Event::Unlink {
                parent,
                name,
                child,
                parent_inode,
                child_inode: left,
            };
            let next = unlink_staged(o, parent, name, child, left, parent_inode);
            &&& applicable(m, e)
            &&& mirrors(applied(m, e), n, next)
        }),
{
    let next = unlink_staged(o, parent, name, child, left, parent_inode);
    let mid = name_staged(inode_staged(o, parent, parent_inode), parent, name, None);
    lemma_mirror(m, n, o, parent);
    lemma_mirror(m, n, o, child);
    lemma_dir_step(m, n, o, parent, parent_inode, name, None);
    let r = dir_edited(m, parent, parent_inode, None, Some(name));
    assert(shown(n, mid, child) && shown_inode(n, mid, child) == shown_inode(n, o, child));
    lemma_child_step(r, n, mid, child, left);
    assert(child_staged(mid, child, left) =~= next) by {
        if left is Some {
            let v = left->0;
            assert(o.inodes.insert(parent, parent_inode).insert(child, v) =~= o.inodes.insert(
                child,
                v,
            ).insert(parent, parent_inode));
        }
    }
}

/// A write: the overlay shows what its record makes of the namespace.
#[verifier::rlimit(60)]
pub proof fn write_is_shown(
    m: Namespace,
    n: Namespace,
    o: Overlay,
    ino: u64,
    chunks: Seq<(u64, Seq<u8>, Seq<u8>)>,
    inode: InodeView,
    descriptors: Map<Seq<u8>, Seq<u8>>,
)
    requires
        mirrors(m, n, o),
        file_shown(n, o, ino),
        stands(n, ino, inode),
        inode.data is File,
        rootless(inode) == (InodeView {
            size: inode.size,
            ctime: inode.ctime,
            ..shown_inode(n, o, ino)
        }),
        crate::log::chunks_ok(chunks),
    ensures
        ({
            let e = Event::Write { ino, chunks, inode };
            let next = Overlay {
                inodes: o.inodes.insert(ino, inode),
                extents: extents_over(o.extents, ino, chunks),
                chunks: descriptors,
                ..o
            };
            &&& applicable(m, e)
            &&& mirrors(applied(m, e), n, next)
        }),
{
    let e = Event::Write { ino, chunks, inode };
    let next = Overlay {
        inodes: o.inodes.insert(ino, inode),
        extents: extents_over(o.extents, ino, chunks),
        chunks: descriptors,
        ..o
    };
    let r = applied(m, e);
    lemma_mirror(m, n, o, ino);
    let s = m[ino].entries;
    assert(crate::fs::offsets_ok(s));
    lemma_extents_shown(s, n, o, ino, chunks);
    assert forall|i: u64| #[trigger] r.contains_key(i) == shown(n, next, i) by {
        lemma_mirror(m, n, o, i);
    }
    assert forall|i: u64| #[trigger] r.contains_key(i) implies {
        &&& r[i].inode == shown_inode(n, next, i)
        &&& mapped(r[i].entries) == shown_entries(n, next, i)
        &&& r[i].xattrs == base_xattrs(n, i)
    } by {
        lemma_mirror(m, n, o, i);
        if i == ino {
            let with = Overlay { extents: next.extents, ..o };
            assert(shown_entries(n, next, i) =~= shown_entries(n, with, i));
        } else {
            assert(r[i] == m[i]);
            assert forall|k: Seq<u8>| #[trigger] slot(n, next, i, k) == slot(n, o, i, k) by {
                lemma_extents_elsewhere(o.extents, ino, chunks, i, k);
            }
            assert(shown_entries(n, next, i) =~= shown_entries(n, o, i));
        }
    }
    lemma_faces(r, n, next);
    assert(overlay_ok(n, next)) by {
        assert forall|i: u64| #[trigger] next.inodes.contains_key(i) implies kind_kept(
            n,
            next,
            i,
        ) by {
            if i != ino {
                assert(kind_kept(n, o, i));
            }
        }
        assert forall|p: (u64, Seq<u8>)| #[trigger] next.names.contains_key(p) implies p.1.len()
            <= 255 && next.inodes.contains_key(p.0) && next.inodes[p.0].data is Directory
            && !next.cuts.contains(p) by {
            assert(o.names.contains_key(p));
        }
        assert forall|p: (u64, Seq<u8>)| #[trigger] next.cuts.contains(
            p,
        ) implies next.inodes.contains_key(p.0) && next.inodes[p.0].data is Directory by {
            assert(o.cuts.contains(p));
        }
        assert forall|p: (u64, Seq<u8>)| #[trigger] next.extents.contains_key(p) implies p.1.len()
            == 8 && next.extents[p].len() <= u32::MAX && next.inodes.contains_key(p.0)
            && next.inodes[p.0].data is File by {
            lemma_extents_bounded(o.extents, ino, chunks, p);
            if o.extents.contains_key(p) {
            }
        }
    }
    assert forall|i: u64| #[trigger] r.contains_key(i) implies sorted(r[i].entries) && contents_ok(
        r[i].inode.data,
        r[i].entries,
    ) by {
        assert(m.contains_key(i));
    }
}

proof fn lemma_extents_elsewhere(
    x: Map<(u64, Seq<u8>), Seq<u8>>,
    ino: u64,
    chunks: Seq<(u64, Seq<u8>, Seq<u8>)>,
    i: u64,
    k: Seq<u8>,
)
    requires
        i != ino,
    ensures
        extents_over(x, ino, chunks).contains_key((i, k)) == x.contains_key((i, k)),
        x.contains_key((i, k)) ==> extents_over(x, ino, chunks)[(i, k)] == x[(i, k)],
    decreases chunks.len(),
{
    if chunks.len() > 0 {
        lemma_extents_elsewhere(x, ino, chunks.drop_last(), i, k);
    }
}

/// A pending extent was pending before, or is one of the write.
proof fn lemma_extents_bounded(
    x: Map<(u64, Seq<u8>), Seq<u8>>,
    ino: u64,
    chunks: Seq<(u64, Seq<u8>, Seq<u8>)>,
    p: (u64, Seq<u8>),
)
    requires
        crate::log::chunks_ok(chunks),
        extents_over(x, ino, chunks).contains_key(p),
    ensures
        x.contains_key(p) && extents_over(x, ino, chunks)[p] == x[p] || p.0 == ino && p.1.len() == 8
            && extents_over(x, ino, chunks)[p].len() <= u32::MAX,
    decreases chunks.len(),
{
    if chunks.len() > 0 {
        let front = chunks.drop_last();
        assert(crate::log::chunk_ok(chunks[chunks.len() - 1]));
        assert forall|j: int| 0 <= j < front.len() implies crate::log::chunk_ok(
            #[trigger] front[j],
        ) by {
            assert(front[j] == chunks[j]);
        }
        lemma_ino_key(chunks.last().0, chunks.last().0);
        if p != (ino, extent_key_of(chunks.last().0)) {
            lemma_extents_bounded(x, ino, front, p);
        }
    }
}

/// The extents of a write over those of a file, listed and overlaid.
proof fn lemma_extents_shown(
    s: Listing,
    n: Namespace,
    o: Overlay,
    ino: u64,
    chunks: Seq<(u64, Seq<u8>, Seq<u8>)>,
)
    requires
        sorted(s),
        crate::fs::offsets_ok(s),
        overlay_ok(n, o),
        file_shown(n, o, ino),
        mapped(s) == shown_entries(n, o, ino),
    ensures
        sorted(extents_with(s, chunks)),
        crate::fs::offsets_ok(extents_with(s, chunks)),
        mapped(extents_with(s, chunks)) == shown_entries(
            n,
            Overlay { extents: extents_over(o.extents, ino, chunks), ..o },
            ino,
        ),
    decreases chunks.len(),
{
    if chunks.len() > 0 {
        let front = chunks.drop_last();
        let c = chunks.last();
        let k = extent_key_of(c.0);
        lemma_extents_shown(s, n, o, ino, front);
        let t = extents_with(s, front);
        lemma_mapped_upsert(t, k, c.2);
        crate::extents::lemma_offsets_upsert(t, c.0, c.2);
        let before = Overlay { extents: extents_over(o.extents, ino, front), ..o };
        let after = Overlay { extents: extents_over(o.extents, ino, chunks), ..o };
        assert(!o.names.contains_key((ino, k)) && !o.cuts.contains((ino, k)));
        assert(shown_entries(n, after, ino) =~= shown_entries(n, before, ino).insert(k, c.2));
    } else {
        assert(o =~= Overlay { extents: extents_over(o.extents, ino, chunks), ..o });
    }
}

/// The entry that the overlay shows is the one that a replay finds.
proof fn lemma_moving(m: Namespace, n: Namespace, o: Overlay, dir: u64, name: Seq<u8>)
    requires
        mirrors(m, n, o),
        dir_shown(n, o, dir),
        entry_over(n, o, dir, name) is Some,
    ensures
        has_dir(m, dir),
        entry_at(m[dir].entries, name) == entry_over(n, o, dir, name),
{
    lemma_mirror(m, n, o, dir);
    lemma_entry_over(n, o, dir, name);
    let s = m[dir].entries;
    assert(mapped(s).contains_key(name));
    assert(mapped(s)[name] == shown_entries(n, o, dir)[name]);
    crate::directory::entry_round_trip(entry_over(n, o, dir, name)->0);
}

/// The entry moves: both directories, and nothing else.
#[verifier::rlimit(60)]
proof fn lemma_move_step(
    m: Namespace,
    n: Namespace,
    o: Overlay,
    sp: u64,
    sn: Seq<u8>,
    spv: InodeView,
    dp: u64,
    dn: Seq<u8>,
    dpv: InodeView,
    e: DirEntry,
)
    requires
        mirrors(m, n, o),
        dir_shown(n, o, sp),
        dir_shown(n, o, dp),
        entry_over(n, o, sp, sn) == Some(e),
        !(sp == dp && sn == dn),
        sn.len() <= 255,
        dn.len() <= 255,
        stands(n, sp, spv),
        stands(n, dp, dpv),
        spv.data is Directory,
        dpv.data is Directory,
    ensures
        mirrors(
            entry_moved(m, sp, sn, spv, dp, dn, dpv),
            n,
            rename_staged(o, sp, sn, dp, dn, e, None, spv, dpv),
        ),
{
    lemma_moving(m, n, o, sp, sn);
    let want = rename_staged(o, sp, sn, dp, dn, e, None, spv, dpv);
    if sp == dp {
        lemma_dir_step(m, n, o, sp, spv, dn, Some(e));
        let r1 = dir_edited(m, sp, spv, Some((dn, e)), None);
        let o1 = name_staged(inode_staged(o, sp, spv), sp, dn, Some(e));
        assert(dir_shown(n, o1, sp)) by {
            lemma_mirror(r1, n, o1, sp);
        }
        lemma_dir_step(r1, n, o1, sp, spv, sn, None);
        let r2 = dir_edited(r1, sp, spv, None, Some(sn));
        let o2 = name_staged(inode_staged(o1, sp, spv), sp, sn, None);
        assert(r2 =~= entry_moved(m, sp, sn, spv, dp, dn, dpv));
        assert(o2 =~= want);
    } else {
        lemma_dir_step(m, n, o, dp, dpv, dn, Some(e));
        let r1 = dir_edited(m, dp, dpv, Some((dn, e)), None);
        let o1 = name_staged(inode_staged(o, dp, dpv), dp, dn, Some(e));
        assert(dir_shown(n, o1, sp));
        lemma_dir_step(r1, n, o1, sp, spv, sn, None);
        let o2 = name_staged(inode_staged(o1, sp, spv), sp, sn, None);
        assert(o2 =~= want) by {
            assert(o.inodes.insert(dp, dpv).insert(sp, spv) =~= o.inodes.insert(sp, spv).insert(
                dp,
                dpv,
            ));
        }
    }
}

/// A rename: the overlay shows what its record makes of the namespace. The
/// moved inode is neither of the directories, and so is the replaced one.
#[verifier::rlimit(60)]
pub proof fn rename_is_shown(
    m: Namespace,
    n: Namespace,
    o: Overlay,
    sp: u64,
    sn: Seq<u8>,
    spv: InodeView,
    dp: u64,
    dn: Seq<u8>,
    dpv: InodeView,
    e: DirEntry,
    src: InodeView,
    dst: Option<(u64, InodeView)>,
)
    requires
        mirrors(m, n, o),
        dir_shown(n, o, sp),
        dir_shown(n, o, dp),
        entry_over(n, o, sp, sn) == Some(e),
        !(sp == dp && sn == dn),
        sn.len() <= 255,
        dn.len() <= 255,
        stands(n, sp, spv),
        stands(n, dp, dpv),
        spv.data is Directory,
        dpv.data is Directory,
        shown(n, o, e.ino),
        rootless(src) == shown_inode(n, o, e.ino),
        e.ino != sp,
        e.ino != dp,
        dst matches Some(d) ==> {
            &&& shown(n, o, d.0)
            &&& d.0 != sp
            &&& d.0 != dp
            &&& d.0 != e.ino
            &&& stands(n, d.0, d.1)
            &&& rootless(d.1) == shown_inode(n, o, d.0)
            &&& is_dir(d.1) == is_dir(src)
        },
    ensures
        ({
            let ev = Event::Rename {
                src_parent: sp,
                src_name: sn,
                dst_parent: dp,
                dst_name: dn,
                src_ino: e.ino,
                dst_ino: match dst {
                    Some(d) => Some(d.0),
                    None => None,
                },
                src_is_dir: is_dir(src),
                src_parent_inode: spv,
                dst_parent_inode: dpv,
                src_inode: Some(src),
            };
            let left = match dst {
                Some(d) => Some((d.0, link_left(d.1, is_dir(d.1)))),
                None => None,
            };
            let next = rename_staged(o, sp, sn, dp, dn, e, left, spv, dpv);
            &&& applicable(m, ev)
            &&& mirrors(applied(m, ev), n, next)
        }),
{
    lemma_moving(m, n, o, sp, sn);
    lemma_mirror(m, n, o, sp);
    lemma_mirror(m, n, o, dp);
    lemma_mirror(m, n, o, e.ino);
    lemma_move_step(m, n, o, sp, sn, spv, dp, dn, dpv, e);
    let r = entry_moved(m, sp, sn, spv, dp, dn, dpv);
    let o1 = rename_staged(o, sp, sn, dp, dn, e, None, spv, dpv);
    assert(r[e.ino] == m[e.ino]);
    assert(item_under(r, e.ino, src) =~= r[e.ino]);
    assert(meta_put(r, e.ino, src) =~= r);
    match dst {
        Some(d) => {
            lemma_mirror(m, n, o, d.0);
            assert(r[d.0] == m[d.0]);
            let left = link_left(d.1, is_dir(d.1));
            assert(shown(n, o1, d.0) && shown_inode(n, o1, d.0) == shown_inode(n, o, d.0));
            lemma_child_step(r, n, o1, d.0, left);
            assert(child_put(r, d.0, left) =~= replaced_dropped(
                r,
                e.ino,
                Some(d.0),
                is_dir(src),
            )) by {
                if left is Some {
                    assert(item_under(r, d.0, left->0) =~= crate::namespace::relinked(
                        r[d.0],
                        one_less(d.1.nlink),
                    ));
                }
            }
            let next = rename_staged(o, sp, sn, dp, dn, e, Some((d.0, left)), spv, dpv);
            assert(child_staged(o1, d.0, left) =~= next) by {
                if left is Some {
                    let v = left->0;
                    if sp == dp {
                        assert(o.inodes.insert(sp, spv).insert(d.0, v) =~= o.inodes.insert(
                            d.0,
                            v,
                        ).insert(sp, spv));
                    } else {
                        assert(o.inodes.insert(sp, spv).insert(dp, dpv).insert(d.0, v)
                            =~= o.inodes.insert(d.0, v).insert(sp, spv).insert(dp, dpv));
                    }
                }
            }
        },
        None => {},
    }
}

/// The inode that an operation reads can stand for its number.
pub proof fn read_inode_stands<B: IoBackend>(tx: Tx<B>, ep: Epoch, h: nat, ino: u64)
    requires
        overlays(tx, ep, h),
        shown(tx.ns(), ep@, ino),
    ensures
        stands(tx.ns(), ino, inode_over(tx, ep@, ino)),
        rootless(inode_over(tx, ep@, ino)) == shown_inode(tx.ns(), ep@, ino),
        same_kind(shown_inode(tx.ns(), ep@, ino).data, inode_over(tx, ep@, ino).data),
{
    lemma_ns_at(
        tx.objects.payloads(),
        tx.root.inode_index_root@,
        tx.max_fanout,
        h,
        ino,
    );
    if ep@.inodes.contains_key(ino) {
        assert(kind_kept(tx.ns(), ep@, ino));
    }
}

/// A readable namespace lists its contents in key order.
pub proof fn readable_is_ordered<B: IoBackend>(tx: Tx<B>, h: nat)
    requires
        tx.reads(h),
    ensures
        ordered(tx.ns()),
{
    assert forall|i: u64| #[trigger] tx.ns().contains_key(i) implies sorted(tx.ns()[i].entries)
        && contents_ok(tx.ns()[i].inode.data, tx.ns()[i].entries) by {
        let p = tx.objects.payloads();
        lemma_ns_at(p, tx.root.inode_index_root@, tx.max_fanout, h, i);
        let v = tx.inode_of(i)->0;
        crate::fs::lemma_tree_sorted(p, data_root(v.data), tx.max_fanout, h);
    }
}

} // verus!
