//! Laws of logged operations: what the overlay shows after one is what the committed one
//! would have made of what it showed before.

use vstd::prelude::*;

use crate::attrs::{item_attrs_set, AttrUpdate};
use crate::epoch::{mapped, shown, shown_entries, shown_inode, slot, Epoch, Overlay};
use crate::epoch_laws::{create_is_shown, lemma_mirror, mirrors, read_inode_stands, rename_is_shown,
    setattr_is_shown, unlink_is_shown};
use crate::epoch_ops::{child_over, chunks_over, create_over_refused, create_parent, extents_over,
    holdable, inode_over, link_left, next_number, numbered, occupied_over, rename_dst_parent,
    rename_over_refused, rename_src_parent, unlink_over_refused, unlink_parent, update_chunks};
use crate::epoch_store::{create_recorded, rename_recorded, setattr_recorded, unlink_recorded,
    write_recorded};
use crate::extent_tree::{extent_key_of, extent_key_order};
use crate::extents::ExtentUpdate;
use crate::file_laws::{last_update, untouched};
use crate::fs::{entry_at, rootless, Namespace};
use crate::inode::{Inode, InodeView, Timespec};
use crate::io::IoBackend;
use crate::links::{rename_refused, renamed, replaced};
use crate::namespace::{child_of, create_refused, created, entry_inode, entry_type, is_dir,
    occupied, unlink_refused, unlinked, NewEntry, RenameOutcome};
use crate::name_laws::kinds_agree;
use crate::overlay::{base_not_dir, dir_shown, entry_over, overlays};
use crate::replay::{applied, Event};
use crate::sorted::lookup;
use crate::transaction::{PendingRecord, Tx};

verus! {

/// A directory that the overlay shows has the entries that are looked up through it.
pub proof fn overlay_entries_are_looked_up(
    m: Namespace,
    n: Namespace,
    o: Overlay,
    dir: u64,
    name: Seq<u8>,
)
    requires
        mirrors(m, n, o),
        dir_shown(n, o, dir),
    ensures
        m.contains_key(dir) && m[dir].inode.data is Directory,
        entry_at(m[dir].entries, name) == entry_over(n, o, dir, name),
{
    lemma_mirror(m, n, o, dir);
    assert(mapped(m[dir].entries).contains_key(name) == shown_entries(n, o, dir).contains_key(
        name,
    ));
    assert(lookup(m[dir].entries, name) == slot(n, o, dir, name)) by {
        if mapped(m[dir].entries).contains_key(name) {
            assert(mapped(m[dir].entries)[name] == shown_entries(n, o, dir)[name]);
        }
    }
    if o.names.contains_key((dir, name)) {
        crate::directory::entry_round_trip(o.names[(dir, name)]);
    }
    if o.extents.contains_key((dir, name)) {
        assert(o.inodes.contains_key(dir) && o.inodes[dir].data is File);
    }
}

/// The record of a create makes of a namespace what the create does.
proof fn lemma_create_event(
    m: Namespace,
    parent: u64,
    name: Seq<u8>,
    ino: u64,
    d_type: u8,
    v: InodeView,
    pv: InodeView,
    now: Timespec,
)
    requires
        !m.contains_key(ino),
        m.contains_key(parent),
        rootless(v) == v,
        rootless(pv) == created(m, parent, name, ino, v, d_type, now)[parent].inode,
    ensures
        applied(m, Event::Create { parent, name, ino, d_type, inode: v, parent_inode: pv })
            == created(m, parent, name, ino, v, d_type, now),
{
    assert(applied(m, Event::Create { parent, name, ino, d_type, inode: v, parent_inode: pv })
        =~= created(m, parent, name, ino, v, d_type, now));
}

/// The record of a removal makes of a namespace what the removal does.
proof fn lemma_unlink_event(
    m: Namespace,
    parent: u64,
    name: Seq<u8>,
    child: u64,
    rmdir: bool,
    left: Option<InodeView>,
    pv: InodeView,
    now: Timespec,
)
    requires
        child != parent,
        m.contains_key(child),
        m.contains_key(parent),
        child == child_of(m, parent, name),
        rootless(pv) == unlinked(m, parent, name, rmdir, now)[parent].inode,
        left is None == !unlinked(m, parent, name, rmdir, now).contains_key(child),
        left matches Some(v) ==> rootless(v) == unlinked(m, parent, name, rmdir, now)[child].inode,
    ensures
        applied(m, Event::Unlink { parent, name, child, parent_inode: pv, child_inode: left })
            == unlinked(m, parent, name, rmdir, now),
{
    assert(applied(m, Event::Unlink { parent, name, child, parent_inode: pv, child_inode: left })
        =~= unlinked(m, parent, name, rmdir, now));
}

/// The record of a rename makes of a namespace what the rename does.
#[verifier::rlimit(40)]
#[verifier::spinoff_prover]
proof fn lemma_rename_event(
    m: Namespace,
    sp: u64,
    sn: Seq<u8>,
    dp: u64,
    dn: Seq<u8>,
    spv: InodeView,
    dpv: InodeView,
    src: InodeView,
    rep: Option<u64>,
    now: Timespec,
)
    requires
        !(sp == dp && sn == dn),
        m.contains_key(sp) && m.contains_key(dp),
        m.contains_key(child_of(m, sp, sn)),
        child_of(m, sp, sn) != sp && child_of(m, sp, sn) != dp,
        rep == replaced(m, sp, sn, dp, dn),
        rep matches Some(d) ==> m.contains_key(d) && d != sp && d != dp && !is_dir(m[d].inode)
            && !is_dir(src),
        rootless(spv) == renamed(m, sp, sn, dp, dn, now)[sp].inode,
        sp != dp ==> rootless(dpv) == renamed(m, sp, sn, dp, dn, now)[dp].inode,
        rootless(src) == m[child_of(m, sp, sn)].inode,
    ensures
        applied(
            m,
            Event::Rename {
                src_parent: sp,
                src_name: sn,
                dst_parent: dp,
                dst_name: dn,
                src_ino: child_of(m, sp, sn),
                dst_ino: rep,
                src_is_dir: is_dir(src),
                src_parent_inode: spv,
                dst_parent_inode: dpv,
                src_inode: Some(src),
            },
        ) == renamed(m, sp, sn, dp, dn, now),
{
    let e = child_of(m, sp, sn);
    let moved = crate::replay::entry_moved(m, sp, sn, spv, dp, dn, dpv);
    assert(moved[e] == m[e]);
    let kept = crate::replay::child_put(moved, e, Some(src));
    assert(kept[e] == moved[e]);
    assert(kept =~= moved);
    if let Some(d) = rep {
        assert(moved[d] == m[d]);
    }
    assert(crate::replay::replaced_dropped(kept, e, rep, is_dir(src)) =~= renamed(
        m,
        sp,
        sn,
        dp,
        dn,
        now,
    ));
}

/// A logged create shows what a committed one makes of what was shown, under a number that
/// nothing had.
#[verifier::rlimit(60)]
#[verifier::spinoff_prover]
pub proof fn logged_create_is_create<B: IoBackend>(
    tx: Tx<B>,
    was: Epoch,
    ep: Epoch,
    records: Seq<PendingRecord>,
    parent: u64,
    name: Seq<u8>,
    entry: NewEntry,
    now: Timespec,
    ino: u64,
    m: Namespace,
    h: nat,
)
    requires
        create_recorded(tx, was, ep, records, parent, name, entry, now, ino),
        overlays(tx, was, h),
        crate::paths::countable(tx),
        numbered(tx.ns(), was),
        mirrors(m, tx.ns(), was@),
    ensures
        !m.contains_key(ino),
        !create_refused(m, parent, name),
        mirrors(
            created(m, parent, name, ino, rootless(entry_inode(entry, now)), entry_type(entry.kind), now),
            tx.ns(),
            ep@,
        ),
        ep@.extents == was@.extents && ep@.chunks == was@.chunks,
{
    let n = tx.ns();
    let o = was@;
    let v = entry_inode(entry, now);
    let pv = create_parent(inode_over(tx, o, parent), entry.kind, now);
    let d_type = entry_type(entry.kind);
    assert(!create_over_refused(n, o, parent, name));
    assert(!n.contains_key(ino) && !o.inodes.contains_key(ino) && !o.gone.contains(ino));
    overlay_entries_are_looked_up(m, n, o, parent, name);
    lemma_mirror(m, n, o, ino);
    lemma_mirror(m, n, o, parent);
    read_inode_stands(tx, was, h, parent);
    crate::name_laws::new_inode_is_as_asked(entry, now);
    create_is_shown(m, n, o, parent, name, ino, d_type, v, pv);
    assert(rootless(v) == v);
    lemma_create_event(m, parent, name, ino, d_type, v, pv, now);
}

/// A logged change of attributes shows what a committed one makes of what was shown.
#[verifier::rlimit(40)]
#[verifier::spinoff_prover]
pub proof fn logged_setattr_is_setattr<B: IoBackend>(
    tx: Tx<B>,
    was: Epoch,
    ep: Epoch,
    records: Seq<PendingRecord>,
    ino: u64,
    update: AttrUpdate,
    now: Timespec,
    inode: Inode,
    m: Namespace,
    h: nat,
)
    requires
        setattr_recorded(tx, was, ep, records, ino, update, now, inode),
        overlays(tx, was, h),
        mirrors(m, tx.ns(), was@),
    ensures
        m.contains_key(ino),
        mirrors(m.insert(ino, item_attrs_set(m[ino], update, now)), tx.ns(), ep@),
        rootless(inode@) == item_attrs_set(m[ino], update, now).inode,
        ep@.extents == was@.extents && ep@.chunks == was@.chunks,
{
    let n = tx.ns();
    let o = was@;
    lemma_mirror(m, n, o, ino);
    read_inode_stands(tx, was, h, ino);
    let old = inode_over(tx, o, ino);
    let v = crate::attrs::attrs_set(old, update, now);
    assert(rootless(v) =~= crate::attrs::attrs_set(rootless(old), update, now));
    setattr_is_shown(m, n, o, ino, v);
    let e = Event::Setattr { ino, inode: v };
    assert(applied(m, e) =~= m.insert(ino, item_attrs_set(m[ino], update, now)));
}

/// A logged removal shows what a committed one makes of what was shown, and gives the inode
/// that the name stood for.
#[verifier::rlimit(60)]
#[verifier::spinoff_prover]
pub proof fn logged_unlink_is_unlink<B: IoBackend>(
    tx: Tx<B>,
    was: Epoch,
    ep: Epoch,
    records: Seq<PendingRecord>,
    parent: u64,
    name: Seq<u8>,
    rmdir: bool,
    now: Timespec,
    child: u64,
    m: Namespace,
    h: nat,
)
    requires
        unlink_recorded(tx, was, ep, records, parent, name, rmdir, now, child),
        overlays(tx, was, h),
        holdable(tx.ns()),
        mirrors(m, tx.ns(), was@),
        dir_shown(tx.ns(), was@, parent),
        child != parent,
    ensures
        child == child_of(m, parent, name),
        kinds_agree(m) ==> !unlink_refused(m, parent, name, rmdir),
        mirrors(unlinked(m, parent, name, rmdir, now), tx.ns(), ep@),
        ep@.extents == was@.extents && ep@.chunks == was@.chunks,
{
    let n = tx.ns();
    let o = was@;
    let left = link_left(inode_over(tx, o, child), rmdir);
    let pv = unlink_parent(inode_over(tx, o, parent), rmdir, now);
    assert(!unlink_over_refused(n, o, parent, name, rmdir));
    overlay_entries_are_looked_up(m, n, o, parent, name);
    lemma_mirror(m, n, o, child);
    lemma_mirror(m, n, o, parent);
    read_inode_stands(tx, was, h, parent);
    read_inode_stands(tx, was, h, child);
    unlink_is_shown(m, n, o, parent, name, child, left, pv);
    lemma_unlink_event(m, parent, name, child, rmdir, left, pv, now);
    if kinds_agree(m) && rmdir && occupied(m[child]) {
        assert(dir_shown(n, o, child));
        let s = m[child].entries;
        overlay_entries_are_looked_up(m, n, o, child, s[0].0);
        crate::sorted::lemma_rank(s, s[0].0);
        assert(lookup(s, s[0].0) == Some(s[0].1));
        assert(crate::fs::entries_ok(s));
        assert(entry_over(n, o, child, s[0].0) is Some);
    }
}

/// A logged rename shows what a committed one makes of what was shown, and gives the inode
/// that moved and the one it replaced. Left aside are a replaced directory, which the log
/// counts out of its parent's links and the commit does not, and an inode that is its own
/// directory.
#[verifier::rlimit(80)]
#[verifier::spinoff_prover]
pub proof fn logged_rename_is_rename<B: IoBackend>(
    tx: Tx<B>,
    was: Epoch,
    ep: Epoch,
    records: Seq<PendingRecord>,
    sp: u64,
    sn: Seq<u8>,
    dp: u64,
    dn: Seq<u8>,
    now: Timespec,
    out: RenameOutcome,
    m: Namespace,
    h: nat,
)
    requires
        rename_recorded(tx, was, ep, records, sp, sn, dp, dn, now, out),
        overlays(tx, was, h),
        holdable(tx.ns()),
        mirrors(m, tx.ns(), was@),
        dir_shown(tx.ns(), was@, sp),
        out.src_ino != sp && out.src_ino != dp,
        out.replaced_dst_ino matches Some(d) ==> d != sp && d != dp && !is_dir(m[d].inode),
    ensures
        out.src_ino == child_of(m, sp, sn),
        !(sp == dp && sn == dn) ==> out.replaced_dst_ino == replaced(m, sp, sn, dp, dn),
        mirrors(renamed(m, sp, sn, dp, dn, now), tx.ns(), ep@),
        ep@.extents == was@.extents && ep@.chunks == was@.chunks,
{
    let n = tx.ns();
    let o = was@;
    overlay_entries_are_looked_up(m, n, o, sp, sn);
    assert(!rename_over_refused(n, o, sp, sn, dp, dn));
    if !(sp == dp && sn == dn) {
        let e = entry_over(n, o, sp, sn)->0;
        let src = inode_over(tx, o, e.ino);
        let dir = is_dir(src);
        let across = sp != dp;
        let rep = out.replaced_dst_ino;
        let spv = rename_src_parent(inode_over(tx, o, sp), across, dir, now);
        let dpv = rename_dst_parent(
            inode_over(tx, o, dp),
            across,
            dir,
            rep matches Some(d) && is_dir(inode_over(tx, o, d)),
            now,
        );
        overlay_entries_are_looked_up(m, n, o, dp, dn);
        lemma_mirror(m, n, o, sp);
        lemma_mirror(m, n, o, dp);
        lemma_mirror(m, n, o, e.ino);
        read_inode_stands(tx, was, h, sp);
        read_inode_stands(tx, was, h, dp);
        read_inode_stands(tx, was, h, e.ino);
        let dst = match rep {
            Some(d) => Some((d, inode_over(tx, o, d))),
            None => None,
        };
        if let Some(d) = rep {
            read_inode_stands(tx, was, h, d);
            lemma_mirror(m, n, o, d);
        }
        rename_is_shown(m, n, o, sp, sn, spv, dp, dn, dpv, e, src, dst);
        assert(crate::links::moved(m, sp, sn) == e);
        lemma_rename_event(m, sp, sn, dp, dn, spv, dpv, src, rep, now);
    }
}

proof fn lemma_extents_over(
    map: Map<(u64, Seq<u8>), Seq<u8>>,
    ino: u64,
    us: Seq<ExtentUpdate>,
    i: u64,
    x: u64,
)
    ensures
        ({
            let r = extents_over(map, ino, update_chunks(us));
            let k = (i, extent_key_of(x));
            &&& i != ino || untouched(us, x) ==> r.contains_key(k) == map.contains_key(k) && r[k]
                == map[k]
            &&& forall|j: int| #[trigger]
                last_update(us, x, j) && i == ino ==> r.contains_key(k) && r[k] == us[j].bytes@
        }),
    decreases us.len(),
{
    if us.len() > 0 {
        let had = us.drop_last();
        let c = update_chunks(us);
        assert(c.drop_last() =~= update_chunks(had));
        lemma_extents_over(map, ino, had, i, x);
        extent_key_order(us.last().offset, x);
        let r = extents_over(map, ino, c);
        let k = (i, extent_key_of(x));
        if untouched(us, x) {
            assert(us[us.len() - 1].offset != x);
            assert forall|j: int| 0 <= j < had.len() implies (#[trigger] had[j]).offset != x by {
                assert(had[j] == us[j]);
            }
        }
        assert forall|j: int| #[trigger] last_update(us, x, j) && i == ino implies r.contains_key(k)
            && r[k] == us[j].bytes@ by {
            if j < us.len() - 1 {
                assert(us[us.len() - 1].offset != x);
                assert(had[j] == us[j]);
                assert forall|l: int| j < l < had.len() implies (#[trigger] had[l]).offset != x by {
                    assert(had[l] == us[l]);
                }
                assert(last_update(had, x, j));
            }
        }
    }
}

proof fn lemma_chunks_over(map: Map<Seq<u8>, Seq<u8>>, us: Seq<ExtentUpdate>, cid: Seq<u8>)
    ensures
        ({
            let r = chunks_over(map, us);
            &&& map.contains_key(cid) ==> r.contains_key(cid) && r[cid] == map[cid]
            &&& (forall|i: int| 0 <= i < us.len() ==> (#[trigger] us[i]).content_id@ != cid)
                && !map.contains_key(cid) ==> !r.contains_key(cid)
            &&& forall|i: int|
                #![trigger us[i]]
                0 <= i < us.len() && us[i].content_id@ == cid && !crate::descriptor::self_alias(
                    us[i].descriptor.form,
                    cid,
                ) ==> r.contains_key(cid)
            &&& r.contains_key(cid) && !map.contains_key(cid) ==> exists|i: int|
                #![trigger us[i]]
                0 <= i < us.len() && us[i].content_id@ == cid && r[cid] == us[i].bytes@
        }),
    decreases us.len(),
{
    if us.len() > 0 {
        let had = us.drop_last();
        lemma_chunks_over(map, had, cid);
        let r = chunks_over(map, us);
        let q = chunks_over(map, had);
        assert forall|i: int| 0 <= i < had.len() implies #[trigger] had[i] == us[i] by {}
        if forall|i: int| 0 <= i < us.len() ==> (#[trigger] us[i]).content_id@ != cid {
            assert(us[us.len() - 1].content_id@ != cid);
            assert forall|i: int| 0 <= i < had.len() implies (#[trigger] had[i]).content_id@
                != cid by {
                assert(had[i] == us[i]);
            }
        }
        assert forall|i: int|
            #![trigger us[i]]
            0 <= i < us.len() && us[i].content_id@ == cid && !crate::descriptor::self_alias(
                us[i].descriptor.form,
                cid,
            ) implies r.contains_key(cid) by {
            if i < had.len() {
                assert(had[i] == us[i]);
            }
        }
        if r.contains_key(cid) && !map.contains_key(cid) {
            if q.contains_key(cid) {
                let i = choose|i: int|
                    #![trigger had[i]]
                    0 <= i < had.len() && had[i].content_id@ == cid && q[cid] == had[i].bytes@;
                assert(us[i] == had[i]);
            } else {
                assert(us[us.len() - 1].content_id@ == cid);
            }
        }
    }
}

/// A logged write is found: the file reaches to the end of the write at least, and keeps its
/// other attributes; at each offset the last update is shown, and where no update is, what
/// was; a chunk that the epoch knows keeps its descriptor, one that it does not gets one of
/// those written. Nothing else that is shown changes.
#[verifier::rlimit(60)]
#[verifier::spinoff_prover]
pub proof fn logged_write_is_found<B: IoBackend>(
    tx: Tx<B>,
    was: Epoch,
    ep: Epoch,
    records: Seq<PendingRecord>,
    ino: u64,
    us: Seq<ExtentUpdate>,
    end: u64,
    h: nat,
    i: u64,
    x: u64,
    cid: Seq<u8>,
)
    requires
        write_recorded(tx, was, ep, records, ino, us, end),
        overlays(tx, was, h),
    ensures
        ({
            let n = tx.ns();
            let old = shown_inode(n, was@, ino);
            let k = extent_key_of(x);
            &&& shown(n, was@, ino) && old.data is File
            &&& shown(n, ep@, i) == shown(n, was@, i)
            &&& i != ino ==> shown_inode(n, ep@, i) == shown_inode(n, was@, i)
            &&& shown_inode(n, ep@, ino).size >= old.size && shown_inode(n, ep@, ino).size >= end
            &&& shown_inode(n, ep@, ino).size == old.size || shown_inode(n, ep@, ino).size == end
            &&& shown_inode(n, ep@, ino) == (InodeView {
                size: shown_inode(n, ep@, ino).size,
                ..old
            })
            &&& i != ino || untouched(us, x) ==> slot(n, ep@, i, k) == slot(n, was@, i, k)
            &&& forall|j: int| #[trigger]
                last_update(us, x, j) && !was@.cuts.contains((ino, k)) && !was@.names.contains_key(
                    (ino, k),
                ) ==> slot(n, ep@, ino, k) == Some(us[j].bytes@)
            &&& ep@.names == was@.names && ep@.cuts == was@.cuts && ep@.gone == was@.gone
            &&& was@.chunks.contains_key(cid) ==> ep@.chunks.contains_key(cid) && ep@.chunks[cid]
                == was@.chunks[cid]
            &&& forall|j: int|
                #![trigger us[j]]
                0 <= j < us.len() && us[j].content_id@ == cid && !crate::descriptor::self_alias(
                    us[j].descriptor.form,
                    cid,
                ) ==> ep@.chunks.contains_key(cid)
            &&& ep@.chunks.contains_key(cid) && !was@.chunks.contains_key(cid) ==> exists|j: int|
                #![trigger us[j]]
                0 <= j < us.len() && us[j].content_id@ == cid && ep@.chunks[cid] == us[j].bytes@
        }),
{
    let n = tx.ns();
    assert(crate::overlay::file_shown(n, was@, ino));
    read_inode_stands(tx, was, h, ino);
    lemma_extents_over(was@.extents, ino, us, i, x);
    lemma_extents_over(was@.extents, ino, us, ino, x);
    lemma_chunks_over(was@.chunks, us, cid);
    let v = crate::epoch_ops::write_inode(inode_over(tx, was@, ino), end);
    assert(rootless(v) =~= (InodeView { size: v.size, ..rootless(inode_over(tx, was@, ino)) }));
}

/// A logged create is refused exactly where a create in what is shown is.
pub proof fn logged_create_refused_alike(
    m: Namespace,
    n: Namespace,
    o: Overlay,
    parent: u64,
    name: Seq<u8>,
)
    requires
        mirrors(m, n, o),
    ensures
        create_over_refused(n, o, parent, name) == create_refused(m, parent, name),
{
    lemma_mirror(m, n, o, parent);
    if dir_shown(n, o, parent) {
        overlay_entries_are_looked_up(m, n, o, parent, name);
    }
}

/// A directory that is shown without entries has none that are looked up.
proof fn lemma_shown_empty(m: Namespace, n: Namespace, o: Overlay, dir: u64)
    requires
        mirrors(m, n, o),
        dir_shown(n, o, dir),
    ensures
        occupied_over(n, o, dir) == occupied(m[dir]),
{
    let s = m[dir].entries;
    lemma_mirror(m, n, o, dir);
    if occupied_over(n, o, dir) {
        let k = choose|k: Seq<u8>| #[trigger] entry_over(n, o, dir, k) is Some;
        overlay_entries_are_looked_up(m, n, o, dir, k);
        assert(lookup(s, k) is Some);
        crate::sorted::lemma_rank(s, k);
    }
    if s.len() > 0 {
        overlay_entries_are_looked_up(m, n, o, dir, s[0].0);
        crate::sorted::lemma_rank(s, s[0].0);
        assert(lookup(s, s[0].0) == Some(s[0].1));
        assert(crate::fs::entries_ok(s));
        assert(entry_over(n, o, dir, s[0].0) is Some);
    }
}

/// A logged removal from a directory is refused exactly where a removal in what is shown is.
pub proof fn logged_unlink_refused_alike(
    m: Namespace,
    n: Namespace,
    o: Overlay,
    parent: u64,
    name: Seq<u8>,
    rmdir: bool,
)
    requires
        mirrors(m, n, o),
        kinds_agree(m),
        dir_shown(n, o, parent),
        !base_not_dir(n, parent),
        !base_not_dir(n, child_over(n, o, parent, name)) || !rmdir,
    ensures
        unlink_over_refused(n, o, parent, name, rmdir) == unlink_refused(m, parent, name, rmdir),
{
    let child = child_over(n, o, parent, name);
    overlay_entries_are_looked_up(m, n, o, parent, name);
    lemma_mirror(m, n, o, parent);
    lemma_mirror(m, n, o, child);
    if dir_shown(n, o, child) {
        lemma_shown_empty(m, n, o, child);
    }
}

/// A logged rename between directories is refused exactly where a rename in what is shown is.
#[verifier::rlimit(40)]
pub proof fn logged_rename_refused_alike(
    m: Namespace,
    n: Namespace,
    o: Overlay,
    sp: u64,
    sn: Seq<u8>,
    dp: u64,
    dn: Seq<u8>,
)
    requires
        mirrors(m, n, o),
        kinds_agree(m),
        dir_shown(n, o, sp),
        dir_shown(n, o, dp),
        !base_not_dir(n, sp),
        entry_over(n, o, dp, dn) matches Some(d) ==> !base_not_dir(n, d.ino) || !is_dir(
            shown_inode(n, o, d.ino),
        ),
    ensures
        rename_over_refused(n, o, sp, sn, dp, dn) == rename_refused(m, sp, sn, dp, dn),
{
    let src = child_over(n, o, sp, sn);
    overlay_entries_are_looked_up(m, n, o, sp, sn);
    overlay_entries_are_looked_up(m, n, o, dp, dn);
    lemma_mirror(m, n, o, sp);
    lemma_mirror(m, n, o, dp);
    lemma_mirror(m, n, o, src);
    if let Some(d) = entry_over(n, o, dp, dn) {
        lemma_mirror(m, n, o, d.ino);
        if dir_shown(n, o, d.ino) {
            lemma_shown_empty(m, n, o, d.ino);
        }
    }
}

/// The directories of a logged rename: a directory that moves out of one counts there no more,
/// and in the one that it moves into; one that it replaces counts there no more. They are
/// changed now, and else as they were.
pub proof fn logged_rename_counts_directories(
    v: InodeView,
    across: bool,
    dir: bool,
    replaced_dir: bool,
    now: Timespec,
)
    requires
        1 < v.nlink < u32::MAX,
    ensures
        ({
            let s = rename_src_parent(v, across, dir, now);
            let d = rename_dst_parent(v, across, dir, replaced_dir, now);
            &&& s == (InodeView { mtime: now, nlink: s.nlink, ..v })
            &&& d == (InodeView { mtime: now, nlink: d.nlink, ..v })
            &&& s.nlink == v.nlink - (if across && dir {
                1int
            } else {
                0
            })
            &&& d.nlink == v.nlink + (if across && dir {
                1int
            } else {
                0
            }) - (if replaced_dir {
                1int
            } else {
                0
            })
        }),
{
}

/// Of what a logged operation unlinks nothing is left where it is a directory or has no other
/// link; else it is left with one link less, and as it was.
pub proof fn unlinked_is_left_with_its_links(v: InodeView, rmdir: bool)
    ensures
        link_left(v, rmdir) is None <==> rmdir || v.nlink <= 1,
        link_left(v, rmdir) matches Some(w) ==> w == (InodeView { nlink: w.nlink, ..v }) && w.nlink
            == v.nlink - 1,
{
}

/// Logged creates give out one number after another.
pub proof fn numbers_follow_on(n: Namespace, ep: Epoch, ino: u64)
    requires
        next_number(n, ep, ino),
        ep.max_ino != 0,
    ensures
        ino == ep.max_ino + 1,
{
}

} // verus!
