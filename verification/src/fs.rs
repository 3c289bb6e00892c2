//! The namespace behind a root: inodes by number, each with what its trees list.
//!
//! A set of payloads and the id of an inode table determine the namespace.
//! Tree ids are left out of it: two trees with the same entries are the same
//! here.

use vstd::prelude::*;

use crate::bytes::{be_bytes, be_value, lemma_be_canonical, lemma_be_order, lemma_be_round_trip,
    lemma_pow256, lex_lt};
use crate::chunk::{digest, zero_id};
use crate::directory::{entry_bytes, entry_in, entry_round_trip, parse_entry, DirEntry};
use crate::inode::{inode_bytes, inode_ok, inode_round_trip, parse_inode, DataView, InodeView};
use crate::node::leaf_encodable;
use crate::sorted::{erase, has_key, lemma_erase_sorted, lemma_lookup_erase, lemma_lookup_upsert,
    lemma_rank, lemma_upsert_sorted, lookup, rank, sorted, upsert};
use crate::tree::{clash_free, flat, height, holds, lemma_lists_sorted, lemma_sized_flat,
    lemma_stored_mono, lemma_tree_at, lists, tree_at, Tree};

verus! {

/// B-tree fanout (order).
pub const BTREE_ORDER: u16 = 64;

/// Keys and values in key order.
pub type Listing = Seq<(Seq<u8>, Seq<u8>)>;

// ---------------------------------------------------------------------------
// Trees and objects
// ---------------------------------------------------------------------------

/// What the tree at `root` lists.
pub open spec fn listing(p: Set<Seq<u8>>, root: Seq<u8>, fanout: u32) -> Listing {
    if root == zero_id() {
        Seq::empty()
    } else {
        flat(tree_at(p, root, BTREE_ORDER, fanout))
    }
}

/// The tree at `root` can be read, and has at most `h` levels.
pub open spec fn tree_ok(p: Set<Seq<u8>>, root: Seq<u8>, fanout: u32, h: nat) -> bool {
    lists(p, root, BTREE_ORDER, fanout, h, listing(p, root, fanout))
}

/// Some payload has this digest.
pub open spec fn held(p: Set<Seq<u8>>, id: Seq<u8>) -> bool {
    exists|b: Seq<u8>| #[trigger] p.contains(b) && digest(b) == id
}

/// The payload with this digest.
pub open spec fn object(p: Set<Seq<u8>>, id: Seq<u8>) -> Option<Seq<u8>> {
    if held(p, id) {
        Some(choose|b: Seq<u8>| #[trigger] p.contains(b) && digest(b) == id)
    } else {
        None
    }
}

/// The inode object with this id.
pub open spec fn stored_inode(p: Set<Seq<u8>>, id: Seq<u8>) -> Option<InodeView> {
    match object(p, id) {
        Some(b) => match parse_inode(b) {
            Ok(v) => Some(v),
            Err(_) => None,
        },
        None => None,
    }
}

pub proof fn lemma_listing(p: Set<Seq<u8>>, root: Seq<u8>, fanout: u32, h: nat, s: Listing)
    requires
        clash_free(p),
        lists(p, root, BTREE_ORDER, fanout, h, s),
    ensures
        listing(p, root, fanout) == s,
        tree_ok(p, root, fanout, h),
        sorted(s),
{
    lemma_lists_sorted(p, root, BTREE_ORDER, fanout, h, s);
    if root != zero_id() {
        lemma_tree_at(p, root, BTREE_ORDER, fanout);
    } else {
        assert(s =~= Seq::empty());
    }
}

pub proof fn lemma_lists_grows(
    p: Set<Seq<u8>>,
    q: Set<Seq<u8>>,
    root: Seq<u8>,
    fanout: u32,
    h: nat,
    k: nat,
    s: Listing,
)
    requires
        lists(p, root, BTREE_ORDER, fanout, h, s),
        p.subset_of(q),
        h <= k,
    ensures
        lists(q, root, BTREE_ORDER, fanout, k, s),
{
    if root != zero_id() {
        let t = choose|t: Tree|
            #[trigger] holds(p, root, t, BTREE_ORDER, fanout, None, None) && height(t) <= h
                && flat(t) == s;
        lemma_stored_mono(p, q, t, BTREE_ORDER);
        assert(holds(q, root, t, BTREE_ORDER, fanout, None, None));
    }
}

/// A tree stays what it is as payloads are added.
pub proof fn lemma_tree_grows(
    p: Set<Seq<u8>>,
    q: Set<Seq<u8>>,
    root: Seq<u8>,
    fanout: u32,
    h: nat,
    k: nat,
)
    requires
        tree_ok(p, root, fanout, h),
        p.subset_of(q),
        clash_free(q),
        h <= k,
    ensures
        tree_ok(q, root, fanout, k),
        listing(q, root, fanout) == listing(p, root, fanout),
{
    let s = listing(p, root, fanout);
    lemma_lists_grows(p, q, root, fanout, h, k, s);
    lemma_listing(q, root, fanout, k, s);
}

pub proof fn lemma_tree_sorted(p: Set<Seq<u8>>, root: Seq<u8>, fanout: u32, h: nat)
    requires
        tree_ok(p, root, fanout, h),
    ensures
        sorted(listing(p, root, fanout)),
{
    lemma_lists_sorted(p, root, BTREE_ORDER, fanout, h, listing(p, root, fanout));
}

/// The entries of a readable tree fit the node format's prefixes.
pub proof fn lemma_tree_encodable(p: Set<Seq<u8>>, root: Seq<u8>, fanout: u32, h: nat)
    requires
        tree_ok(p, root, fanout, h),
    ensures
        leaf_encodable(listing(p, root, fanout)),
{
    if root != zero_id() {
        let s = listing(p, root, fanout);
        let t = choose|t: Tree|
            #[trigger] holds(p, root, t, BTREE_ORDER, fanout, None, None) && height(t) <= h
                && flat(t) == s;
        lemma_sized_flat(t, fanout);
    }
}

pub proof fn lemma_object(p: Set<Seq<u8>>, b: Seq<u8>)
    requires
        clash_free(p),
        p.contains(b),
    ensures
        object(p, digest(b)) == Some(b),
{
    assert(p.contains(b) && digest(b) == digest(b));
    let c = choose|c: Seq<u8>| #[trigger] p.contains(c) && digest(c) == digest(b);
    assert(p.contains(c));
}

/// An object stays what it is as payloads are added.
pub proof fn lemma_object_grows(p: Set<Seq<u8>>, q: Set<Seq<u8>>, id: Seq<u8>)
    requires
        object(p, id) is Some,
        p.subset_of(q),
        clash_free(q),
    ensures
        object(q, id) == object(p, id),
{
    let b = object(p, id)->0;
    assert(p.contains(b) && digest(b) == id);
    lemma_object(q, b);
}

// ---------------------------------------------------------------------------
// Inodes
// ---------------------------------------------------------------------------

/// An inode with what its trees list in place of their ids.
#[verifier::ext_equal]
pub struct Item {
    /// The inode; its tree ids are zero.
    pub inode: InodeView,
    /// Directory entries by name, or extents by offset.
    pub entries: Listing,
    /// Extended attributes by name.
    pub xattrs: Listing,
}

/// The namespace: items by inode number.
pub type Namespace = Map<u64, Item>;

/// The tree that the data of an inode is.
pub open spec fn data_root(d: DataView) -> Seq<u8> {
    match d {
        DataView::Directory { dir_root } => dir_root,
        DataView::File { extent_root } => extent_root,
        _ => zero_id(),
    }
}

/// The data with its tree id zeroed.
pub open spec fn rootless_data(d: DataView) -> DataView {
    match d {
        DataView::Directory { .. } => DataView::Directory { dir_root: zero_id() },
        DataView::File { .. } => DataView::File { extent_root: zero_id() },
        _ => d,
    }
}

/// The inode with its tree ids zeroed.
pub open spec fn rootless(v: InodeView) -> InodeView {
    InodeView { xattr_root: zero_id(), data: rootless_data(v.data), ..v }
}

pub open spec fn item_of(p: Set<Seq<u8>>, v: InodeView, fanout: u32) -> Item {
    Item {
        inode: rootless(v),
        entries: listing(p, data_root(v.data), fanout),
        xattrs: listing(p, v.xattr_root, fanout),
    }
}

/// Every value is a directory entry.
pub open spec fn entries_ok(s: Listing) -> bool {
    forall|i: int| 0 <= i < s.len() ==> parse_entry((#[trigger] s[i]).1) is Ok
}

/// Every key is an offset.
pub open spec fn offsets_ok(s: Listing) -> bool {
    forall|i: int| 0 <= i < s.len() ==> (#[trigger] s[i]).0.len() == 8
}

/// The contents fit the kind of the data.
pub open spec fn contents_ok(d: DataView, s: Listing) -> bool {
    match d {
        DataView::Directory { .. } => entries_ok(s),
        DataView::File { .. } => offsets_ok(s),
        _ => true,
    }
}

/// The inode is whole: in range, its trees readable, their entries of the right
/// form.
pub open spec fn inode_fits(p: Set<Seq<u8>>, v: InodeView, fanout: u32, h: nat) -> bool {
    &&& inode_ok(v)
    &&& tree_ok(p, data_root(v.data), fanout, h)
    &&& tree_ok(p, v.xattr_root, fanout, h)
    &&& contents_ok(v.data, listing(p, data_root(v.data), fanout))
}

pub proof fn lemma_fits_grows(
    p: Set<Seq<u8>>,
    q: Set<Seq<u8>>,
    v: InodeView,
    fanout: u32,
    h: nat,
    k: nat,
)
    requires
        inode_fits(p, v, fanout, h),
        p.subset_of(q),
        clash_free(q),
        h <= k,
    ensures
        inode_fits(q, v, fanout, k),
        item_of(q, v, fanout) == item_of(p, v, fanout),
{
    lemma_tree_grows(p, q, data_root(v.data), fanout, h, k);
    lemma_tree_grows(p, q, v.xattr_root, fanout, h, k);
}

// ---------------------------------------------------------------------------
// The inode table
// ---------------------------------------------------------------------------

/// The table key of an inode number.
pub open spec fn ino_key(ino: u64) -> Seq<u8> {
    be_bytes(ino as nat, 8)
}

/// The inode number of a table key.
pub open spec fn key_ino(k: Seq<u8>) -> u64 {
    be_value(k) as u64
}

pub proof fn lemma_ino_key(a: u64, b: u64)
    ensures
        ino_key(a).len() == 8,
        key_ino(ino_key(a)) == a,
        (ino_key(a) == ino_key(b)) == (a == b),
        lex_lt(ino_key(a), ino_key(b)) == (a < b),
{
    lemma_pow256();
    lemma_be_round_trip(a as nat, 8);
    lemma_be_round_trip(b as nat, 8);
    lemma_be_order(a as nat, b as nat, 8);
}

pub proof fn lemma_key_ino(k: Seq<u8>)
    requires
        k.len() == 8,
    ensures
        ino_key(key_ino(k)) == k,
{
    lemma_pow256();
    lemma_be_canonical(k);
}

/// A row of the table: an inode number, and the id of a whole inode.
pub open spec fn row_ok(p: Set<Seq<u8>>, row: (Seq<u8>, Seq<u8>), fanout: u32, h: nat) -> bool {
    &&& row.0.len() == 8
    &&& row.1.len() == 32
    &&& stored_inode(p, row.1) is Some
    &&& inode_fits(p, stored_inode(p, row.1)->0, fanout, h)
}

pub open spec fn rows_ok(p: Set<Seq<u8>>, s: Listing, fanout: u32, h: nat) -> bool {
    forall|i: int| 0 <= i < s.len() ==> row_ok(p, #[trigger] s[i], fanout, h)
}

/// The inode table can be read and names whole inodes only; no tree has more
/// than `h` levels.
pub open spec fn fs_ok(p: Set<Seq<u8>>, table: Seq<u8>, fanout: u32, h: nat) -> bool {
    &&& tree_ok(p, table, fanout, h)
    &&& rows_ok(p, listing(p, table, fanout), fanout, h)
}

/// The inode with this number.
pub open spec fn inode_at(p: Set<Seq<u8>>, table: Seq<u8>, fanout: u32, ino: u64) -> Option<
    InodeView,
> {
    match lookup(listing(p, table, fanout), ino_key(ino)) {
        Some(id) => stored_inode(p, id),
        None => None,
    }
}

/// The namespace of rows.
#[verifier::opaque]
pub open spec fn ns_of(p: Set<Seq<u8>>, s: Listing, fanout: u32) -> Namespace {
    Map::new(
        |ino: u64| has_key(s, ino_key(ino)),
        |ino: u64| item_of(p, stored_inode(p, lookup(s, ino_key(ino))->0)->0, fanout),
    )
}

/// The namespace behind an inode table.
pub open spec fn ns(p: Set<Seq<u8>>, table: Seq<u8>, fanout: u32) -> Namespace {
    ns_of(p, listing(p, table, fanout), fanout)
}

pub proof fn lemma_has_key<V>(s: Seq<(Seq<u8>, V)>, k: Seq<u8>)
    requires
        sorted(s),
    ensures
        has_key(s, k) == (lookup(s, k) is Some),
        has_key(s, k) ==> 0 <= rank(s, k) < s.len() && s[rank(s, k)].0 == k && lookup(s, k) == Some(
            s[rank(s, k)].1,
        ),
{
    lemma_rank(s, k);
}

pub proof fn lemma_row_grows(
    p: Set<Seq<u8>>,
    q: Set<Seq<u8>>,
    row: (Seq<u8>, Seq<u8>),
    fanout: u32,
    h: nat,
    k: nat,
)
    requires
        row_ok(p, row, fanout, h),
        p.subset_of(q),
        clash_free(q),
        h <= k,
    ensures
        row_ok(q, row, fanout, k),
        stored_inode(q, row.1) == stored_inode(p, row.1),
        item_of(q, stored_inode(q, row.1)->0, fanout) == item_of(
            p,
            stored_inode(p, row.1)->0,
            fanout,
        ),
{
    lemma_object_grows(p, q, row.1);
    lemma_fits_grows(p, q, stored_inode(p, row.1)->0, fanout, h, k);
}

/// A namespace stays what it is as payloads are added.
pub proof fn lemma_fs_grows(
    p: Set<Seq<u8>>,
    q: Set<Seq<u8>>,
    table: Seq<u8>,
    fanout: u32,
    h: nat,
    k: nat,
)
    requires
        fs_ok(p, table, fanout, h),
        p.subset_of(q),
        clash_free(q),
        h <= k,
    ensures
        fs_ok(q, table, fanout, k),
        ns(q, table, fanout) == ns(p, table, fanout),
        listing(q, table, fanout) == listing(p, table, fanout),
        forall|ino: u64| #[trigger]
            inode_at(q, table, fanout, ino) == inode_at(p, table, fanout, ino),
{
    reveal(ns_of);
    lemma_tree_grows(p, q, table, fanout, h, k);
    lemma_tree_sorted(p, table, fanout, h);
    let s = listing(p, table, fanout);
    assert forall|i: int| 0 <= i < s.len() implies row_ok(q, #[trigger] s[i], fanout, k) by {
        lemma_row_grows(p, q, s[i], fanout, h, k);
    }
    assert forall|ino: u64| #[trigger]
        inode_at(q, table, fanout, ino) == inode_at(p, table, fanout, ino) by {
        lemma_has_key(s, ino_key(ino));
        if has_key(s, ino_key(ino)) {
            lemma_row_grows(p, q, s[rank(s, ino_key(ino))], fanout, h, k);
        }
    }
    let a = ns(q, table, fanout);
    let b = ns(p, table, fanout);
    assert forall|ino: u64| #[trigger] a.contains_key(ino) implies a[ino] == b[ino] by {
        lemma_has_key(s, ino_key(ino));
        lemma_row_grows(p, q, s[rank(s, ino_key(ino))], fanout, h, k);
    }
    assert(a =~= b);
}

/// What a number of the namespace stands for.
pub proof fn lemma_ns_at(p: Set<Seq<u8>>, table: Seq<u8>, fanout: u32, h: nat, ino: u64)
    requires
        fs_ok(p, table, fanout, h),
    ensures
        ns(p, table, fanout).contains_key(ino) == has_key(
            listing(p, table, fanout),
            ino_key(ino),
        ),
        ns(p, table, fanout).contains_key(ino) == (inode_at(p, table, fanout, ino) is Some),
        inode_at(p, table, fanout, ino) matches Some(v) ==> {
            &&& inode_fits(p, v, fanout, h)
            &&& ns(p, table, fanout)[ino] == item_of(p, v, fanout)
        },
{
    reveal(ns_of);
    lemma_tree_sorted(p, table, fanout, h);
    let s = listing(p, table, fanout);
    lemma_has_key(s, ino_key(ino));
    if has_key(s, ino_key(ino)) {
        assert(row_ok(p, s[rank(s, ino_key(ino))], fanout, h));
    }
}

#[verifier::rlimit(100)]
#[verifier::spinoff_prover]
proof fn lemma_rows_upsert(
    p: Set<Seq<u8>>,
    s: Listing,
    row: (Seq<u8>, Seq<u8>),
    fanout: u32,
    h: nat,
)
    requires
        sorted(s),
        rows_ok(p, s, fanout, h),
        row_ok(p, row, fanout, h),
    ensures
        rows_ok(p, upsert(s, row.0, row.1), fanout, h),
{
    lemma_rank(s, row.0);
    let u = upsert(s, row.0, row.1);
    let r = rank(s, row.0);
    assert forall|i: int| 0 <= i < u.len() implies row_ok(p, #[trigger] u[i], fanout, h) by {
        if i == r {
            assert(u[i] == row);
        } else if has_key(s, row.0) || i < r {
            assert(u[i] == s[i]);
        } else {
            assert(u[i] == s[i - 1]);
        }
    }
}

#[verifier::rlimit(80)]
#[verifier::spinoff_prover]
proof fn lemma_rows_erase(p: Set<Seq<u8>>, s: Listing, key: Seq<u8>, fanout: u32, h: nat)
    requires
        sorted(s),
        rows_ok(p, s, fanout, h),
    ensures
        rows_ok(p, erase(s, key), fanout, h),
{
    lemma_rank(s, key);
    let e = erase(s, key);
    let r = rank(s, key);
    assert forall|i: int| 0 <= i < e.len() implies row_ok(p, #[trigger] e[i], fanout, h) by {
        if has_key(s, key) && i >= r {
            assert(e[i] == s[i + 1]);
        } else {
            assert(e[i] == s[i]);
        }
    }
}

proof fn lemma_ns_upsert(p: Set<Seq<u8>>, s: Listing, ino: u64, id: Seq<u8>, fanout: u32)
    requires
        sorted(s),
    ensures
        ns_of(p, upsert(s, ino_key(ino), id), fanout) == ns_of(p, s, fanout).insert(
            ino,
            item_of(p, stored_inode(p, id)->0, fanout),
        ),
{
    reveal(ns_of);
    let key = ino_key(ino);
    let u = upsert(s, key, id);
    lemma_upsert_sorted(s, key, id);
    let a = ns_of(p, u, fanout);
    let b = ns_of(p, s, fanout).insert(ino, item_of(p, stored_inode(p, id)->0, fanout));
    assert forall|n: u64| #[trigger] a.dom().contains(n) == b.dom().contains(n) by {
        lemma_ino_key(n, ino);
        lemma_lookup_upsert(s, key, id, ino_key(n));
        lemma_has_key(s, ino_key(n));
        lemma_has_key(u, ino_key(n));
    }
    assert(a.dom() =~= b.dom());
    assert forall|n: u64| #[trigger] a.dom().contains(n) implies a[n] == b[n] by {
        lemma_ino_key(n, ino);
        lemma_lookup_upsert(s, key, id, ino_key(n));
        lemma_has_key(s, ino_key(n));
        lemma_has_key(u, ino_key(n));
    }
    assert(a =~= b);
}

proof fn lemma_ns_erase(p: Set<Seq<u8>>, s: Listing, ino: u64, fanout: u32)
    requires
        sorted(s),
    ensures
        ns_of(p, erase(s, ino_key(ino)), fanout) == ns_of(p, s, fanout).remove(ino),
{
    reveal(ns_of);
    let key = ino_key(ino);
    let e = erase(s, key);
    lemma_erase_sorted(s, key);
    let a = ns_of(p, e, fanout);
    let b = ns_of(p, s, fanout).remove(ino);
    assert forall|n: u64| #[trigger] a.dom().contains(n) == b.dom().contains(n) by {
        lemma_ino_key(n, ino);
        lemma_lookup_erase(s, key, ino_key(n));
        lemma_has_key(s, ino_key(n));
        lemma_has_key(e, ino_key(n));
    }
    assert(a.dom() =~= b.dom());
    assert forall|n: u64| #[trigger] a.dom().contains(n) implies a[n] == b[n] by {
        lemma_ino_key(n, ino);
        lemma_lookup_erase(s, key, ino_key(n));
        lemma_has_key(s, ino_key(n));
        lemma_has_key(e, ino_key(n));
    }
    assert(a =~= b);
}

/// Binding a number to a whole inode.
pub proof fn lemma_put_row(
    p: Set<Seq<u8>>,
    table: Seq<u8>,
    now: Seq<u8>,
    fanout: u32,
    h: nat,
    ino: u64,
    v: InodeView,
)
    requires
        clash_free(p),
        fs_ok(p, table, fanout, h),
        p.contains(inode_bytes(v)),
        inode_fits(p, v, fanout, h),
        lists(
            p,
            now,
            BTREE_ORDER,
            fanout,
            h,
            upsert(listing(p, table, fanout), ino_key(ino), digest(inode_bytes(v))),
        ),
    ensures
        fs_ok(p, now, fanout, h),
        ns(p, now, fanout) == ns(p, table, fanout).insert(ino, item_of(p, v, fanout)),
        listing(p, now, fanout) == upsert(
            listing(p, table, fanout),
            ino_key(ino),
            digest(inode_bytes(v)),
        ),
        inode_at(p, now, fanout, ino) == Some(v),
{
    let s = listing(p, table, fanout);
    let key = ino_key(ino);
    let id = digest(inode_bytes(v));
    lemma_tree_sorted(p, table, fanout, h);
    lemma_listing(p, now, fanout, h, upsert(s, key, id));
    crate::epoch::lemma_upsert_at(s, key, id);
    assert(stored_inode(p, id) == Some(v)) by {
        lemma_object(p, inode_bytes(v));
        inode_round_trip(v);
    }
    lemma_ino_key(ino, ino);
    lemma_rows_upsert(p, s, (key, id), fanout, h);
    lemma_ns_upsert(p, s, ino, id, fanout);
}

/// Unbinding a number.
pub proof fn lemma_drop_row(
    p: Set<Seq<u8>>,
    table: Seq<u8>,
    now: Seq<u8>,
    fanout: u32,
    h: nat,
    ino: u64,
)
    requires
        clash_free(p),
        fs_ok(p, table, fanout, h),
        lists(
            p,
            now,
            BTREE_ORDER,
            fanout,
            h,
            erase(listing(p, table, fanout), ino_key(ino)),
        ),
    ensures
        fs_ok(p, now, fanout, h),
        ns(p, now, fanout) == ns(p, table, fanout).remove(ino),
        listing(p, now, fanout) == erase(listing(p, table, fanout), ino_key(ino)),
{
    let s = listing(p, table, fanout);
    lemma_tree_sorted(p, table, fanout, h);
    lemma_listing(p, now, fanout, h, erase(s, ino_key(ino)));
    lemma_rows_erase(p, s, ino_key(ino), fanout, h);
    lemma_ns_erase(p, s, ino, fanout);
}

// ---------------------------------------------------------------------------
// Directory contents
// ---------------------------------------------------------------------------

/// The entry under a name.
pub open spec fn entry_at(s: Listing, name: Seq<u8>) -> Option<DirEntry> {
    match lookup(s, name) {
        Some(b) => match parse_entry(b) {
            Ok(e) => Some(e),
            Err(_) => None,
        },
        None => None,
    }
}

pub proof fn lemma_entry_at(s: Listing, name: Seq<u8>)
    requires
        sorted(s),
        entries_ok(s),
    ensures
        entry_in(s, name) == Ok::<Option<DirEntry>, crate::codec::CodecError>(entry_at(s, name)),
        entry_at(s, name) is Some == has_key(s, name),
{
    lemma_has_key(s, name);
}

pub proof fn lemma_entries_upsert(s: Listing, name: Seq<u8>, e: DirEntry)
    requires
        sorted(s),
        entries_ok(s),
    ensures
        entries_ok(upsert(s, name, entry_bytes(e))),
        sorted(upsert(s, name, entry_bytes(e))),
        forall|n: Seq<u8>| #[trigger]
            entry_at(upsert(s, name, entry_bytes(e)), n) == if n == name {
                Some(e)
            } else {
                entry_at(s, n)
            },
{
    entry_round_trip(e);
    lemma_rank(s, name);
    lemma_upsert_sorted(s, name, entry_bytes(e));
    let u = upsert(s, name, entry_bytes(e));
    let r = rank(s, name);
    assert forall|i: int| 0 <= i < u.len() implies parse_entry((#[trigger] u[i]).1) is Ok by {
        if i == r {
            assert(u[i] == (name, entry_bytes(e)));
        } else if has_key(s, name) || i < r {
            assert(u[i] == s[i]);
        } else {
            assert(u[i] == s[i - 1]);
        }
    }
    assert forall|n: Seq<u8>| #[trigger] entry_at(u, n) == if n == name {
        Some(e)
    } else {
        entry_at(s, n)
    } by {
        lemma_lookup_upsert(s, name, entry_bytes(e), n);
    }
}

pub proof fn lemma_entries_erase(s: Listing, name: Seq<u8>)
    requires
        sorted(s),
        entries_ok(s),
    ensures
        entries_ok(erase(s, name)),
        sorted(erase(s, name)),
        forall|n: Seq<u8>| #[trigger]
            entry_at(erase(s, name), n) == if n == name {
                None
            } else {
                entry_at(s, n)
            },
{
    lemma_rank(s, name);
    lemma_erase_sorted(s, name);
    let e = erase(s, name);
    let r = rank(s, name);
    assert forall|i: int| 0 <= i < e.len() implies parse_entry((#[trigger] e[i]).1) is Ok by {
        if has_key(s, name) && i >= r {
            assert(e[i] == s[i + 1]);
        } else {
            assert(e[i] == s[i]);
        }
    }
    assert forall|n: Seq<u8>| #[trigger] entry_at(e, n) == if n == name {
        None
    } else {
        entry_at(s, n)
    } by {
        lemma_lookup_erase(s, name, n);
    }
}

} // verus!
