//! Persistent copy-on-write B-tree over content-addressed immutable nodes.
//!
//! Nodes are immutable objects: a mutation rewrites the path from the root to
//! the touched leaf, producing new nodes; unchanged nodes are shared. The id of
//! a node is the BLAKE3 digest of its payload. Keys are raw bytes compared
//! lexicographically.
//!
//! Removing collapses empty nodes and leaves under-full nodes in place.

use vstd::prelude::*;

use std::cmp::Ordering;

use crate::bytes::{copy_bytes, lemma_lex_order, lex_less, lex_lt};
use crate::chunk::{digest, zero_id, ChunkId};
use crate::codec::CodecError;
use crate::node::{inner_encodable, node_bytes, node_canonical, node_ok, node_round_trip, pairs,
    parse_node, Entry, Node, NodeView};
use crate::sorted::{all_lt, below, concat, has_key, increasing, lemma_concat_at, lemma_rank,
    lemma_rank_context, lemma_rank_is, lookup, rank, sorted};
use crate::tree::{clash_free, covers, flat, flats, height, holds, inner_view, inside, keyed, kid_hi, kid_lo,
    lemma_flat, lemma_height_bound, lemma_height_kids, lemma_node_of, lemma_node_ok,
    lemma_ordered_flat, lemma_ordered_keyed, lemma_route, lemma_sized_coded, lemma_slot,
    lemma_slot_is, lemma_tree_unique, lemma_tree_at, lists, max_height, node_of, ordered,
    seps_encodable, seps_inside, sized, slot_of, stored, tree_at, tree_bytes, tree_id, tree_ids,
    within, Tree};

pub use crate::index_batch::{apply_sorted_batch, bulk_load};
pub use crate::index_edit::{insert, remove};
pub use crate::node::{DEFAULT_ORDER, NODE_INTERNAL, NODE_LEAF};

verus! {

/// A key/value pair returned by scans and predecessor lookups.
pub type EntryPair = (Vec<u8>, Vec<u8>);

/// Scan output: entries, whether more remain, and the last key returned.
pub type ScanOut = (Vec<EntryPair>, bool, Option<Vec<u8>>);

/// Split promotion: (separator key, right child id).
pub type Promotion = Option<(Vec<u8>, ChunkId)>;

/// Remove result: (new node id, or `None` when the node collapsed, and the
/// removed value).
pub type RemoveResult = (Option<ChunkId>, Option<Vec<u8>>);

/// B-tree errors.
#[derive(Debug, PartialEq, Eq)]
pub enum BTreeError {
    /// Provider fetch failed.
    Provider(String),
    /// Corrupt node payload.
    Corrupt(String),
    /// Key too long for the format.
    KeyTooLong,
    /// Value too large.
    ValueTooLarge,
    /// Internal invariant violation.
    Invariant(String),
}

/// Object provider: fetches node payloads (committed or pending) and registers
/// new node payloads. Implemented by the transaction.
///
/// A provider in verified code says by the spec functions what it models. One that
/// leaves them out models nothing: it is not faithful, so that nothing is promised of
/// what it hands out.
pub trait ObjectProvider {
    /// Every payload that the provider holds.
    open spec fn payloads(&self) -> Set<Seq<u8>> {
        Set::full()
    }

    /// What the provider hands out is what it holds.
    open spec fn faithful(&self) -> bool {
        false
    }

    /// A fetch may fail.
    open spec fn may_fail(&self) -> bool {
        true
    }

    /// The payloads that were there before any was put.
    open spec fn ground(&self) -> Set<Seq<u8>> {
        Set::empty()
    }

    /// The payloads that were put, in order.
    open spec fn puts(&self) -> Seq<Seq<u8>> {
        Seq::empty()
    }

    /// Fetch a node payload by content id.
    fn get(&self, id: &ChunkId) -> (r: Result<Option<Vec<u8>>, BTreeError>)
        ensures
            self.faithful() ==> match r {
                Ok(Some(b)) => self.payloads().contains(b@) && digest(b@) == id@,
                Ok(None) => forall|b: Seq<u8>| #[trigger]
                    self.payloads().contains(b) ==> digest(b) != id@,
                Err(_) => self.may_fail(),
            },
    ;

    /// Register a new immutable node payload.
    fn put(&mut self, id: ChunkId, bytes: Vec<u8>)
        requires
            id@ == digest(bytes@),
        ensures
            final(self).payloads() == old(self).payloads().insert(bytes@),
            old(self).faithful() ==> final(self).puts() == old(self).puts().push(bytes@),
            old(self).faithful() ==> final(self).faithful(),
            final(self).may_fail() == old(self).may_fail(),
            final(self).ground() == old(self).ground(),
    ;
}

/// The provider holds payloads with distinct digests and hands out what it
/// holds.
pub open spec fn trusty<P: ObjectProvider>(p: &P) -> bool {
    p.faithful() && clash_free(p.payloads())
}

/// `q` is `p` with more payloads.
pub open spec fn grown<P: ObjectProvider>(p: &P, q: &P) -> bool {
    &&& p.payloads().subset_of(q.payloads())
    &&& p.faithful() ==> q.faithful()
    &&& q.may_fail() == p.may_fail()
    &&& q.ground() == p.ground()
}

/// `q` is `p` after these payloads were put, in order, and no others.
pub open spec fn added<P: ObjectProvider>(p: &P, q: &P, ns: Seq<Seq<u8>>) -> bool {
    &&& grown(p, q)
    &&& q.payloads() == p.payloads().union(ns.to_set())
    &&& p.faithful() ==> q.puts() == p.puts() + ns
}

pub(crate) proof fn lemma_added_none<P: ObjectProvider>(p: &P)
    ensures
        added(p, p, Seq::empty()),
{
    assert(p.payloads() =~= p.payloads().union(Seq::<Seq<u8>>::empty().to_set()));
    assert(p.puts() =~= p.puts() + Seq::<Seq<u8>>::empty());
}

pub(crate) proof fn lemma_added_one<P: ObjectProvider>(p: &P, q: &P, x: Seq<u8>)
    requires
        grown(p, q),
        q.payloads() == p.payloads().insert(x),
        p.faithful() ==> q.puts() == p.puts().push(x),
    ensures
        added(p, q, seq![x]),
{
    let s = seq![x];
    assert(s[0] == x);
    assert forall|y: Seq<u8>| #[trigger] s.to_set().contains(y) implies y == x by {}
    assert(s.to_set().contains(x));
    assert(q.payloads() =~= p.payloads().union(s.to_set()));
    if p.faithful() {
        assert(q.puts() =~= p.puts() + s);
    }
}

pub(crate) proof fn lemma_added_then<P: ObjectProvider>(
    p: &P,
    q: &P,
    r: &P,
    a: Seq<Seq<u8>>,
    b: Seq<Seq<u8>>,
)
    requires
        added(p, q, a),
        added(q, r, b),
    ensures
        added(p, r, a + b),
{
    let c = a + b;
    assert forall|x: Seq<u8>| #[trigger] c.to_set().contains(x) == (a.to_set().contains(x)
        || b.to_set().contains(x)) by {
        if a.to_set().contains(x) {
            let i = choose|i: int| 0 <= i < a.len() && a[i] == x;
            assert(c[i] == x);
        }
        if b.to_set().contains(x) {
            let i = choose|i: int| 0 <= i < b.len() && b[i] == x;
            assert(c[a.len() + i] == x);
        }
        if c.to_set().contains(x) {
            let i = choose|i: int| 0 <= i < c.len() && c[i] == x;
            if i < a.len() {
                assert(a[i] == x);
            } else {
                assert(b[i - a.len()] == x);
            }
        }
    }
    assert(r.payloads() =~= p.payloads().union(c.to_set()));
    if p.faithful() {
        assert(r.puts() =~= p.puts() + c);
    }
}

pub open spec fn opt_bytes(v: Option<Vec<u8>>) -> Option<Seq<u8>> {
    match v {
        Some(b) => Some(b@),
        None => None,
    }
}

pub open spec fn opt_pair(v: Option<EntryPair>) -> Option<(Seq<u8>, Seq<u8>)> {
    match v {
        Some(p) => Some((p.0@, p.1@)),
        None => None,
    }
}

pub open spec fn pair_views(v: Seq<EntryPair>) -> Seq<(Seq<u8>, Seq<u8>)> {
    Seq::new(v.len(), |i: int| (v[i].0@, v[i].1@))
}

pub open spec fn key_views(v: Seq<Vec<u8>>) -> Seq<Seq<u8>> {
    Seq::new(v.len(), |i: int| v[i]@)
}

pub open spec fn id_views(v: Seq<ChunkId>) -> Seq<Seq<u8>> {
    Seq::new(v.len(), |i: int| v[i]@)
}

impl BTreeError {
    /// The error of a payload that does not decode.
    pub fn corrupt(e: CodecError) -> (r: BTreeError)
        ensures
            r matches BTreeError::Corrupt(m) && m@ == e.text(),
    {
        BTreeError::Corrupt(e.describe())
    }
}

// ---------------------------------------------------------------------------
// Nodes
// ---------------------------------------------------------------------------

/// Why a node cannot be had.
pub enum Fault {
    /// The zero id, or a node that is not there.
    Absent,
    /// A payload that does not decode.
    Corrupt(CodecError),
    /// A path longer than a reader descends.
    TooDeep,
}

/// The error says what the fault is.
pub open spec fn says(e: BTreeError, f: Fault) -> bool {
    match f {
        Fault::Absent | Fault::TooDeep => e is Invariant,
        Fault::Corrupt(c) => e matches BTreeError::Corrupt(m) && m@ == c.text(),
    }
}

/// The payload of this id.
pub open spec fn payload_of(payloads: Set<Seq<u8>>, id: Seq<u8>) -> Option<Seq<u8>> {
    if exists|b: Seq<u8>| #[trigger] payloads.contains(b) && digest(b) == id {
        Some(choose|b: Seq<u8>| #[trigger] payloads.contains(b) && digest(b) == id)
    } else {
        None
    }
}

/// The node of this id.
pub open spec fn node_at(
    payloads: Set<Seq<u8>>,
    id: Seq<u8>,
    order: u16,
    max_fanout: u32,
) -> Result<NodeView, Fault> {
    if id == zero_id() {
        Err(Fault::Absent)
    } else {
        match payload_of(payloads, id) {
            None => Err(Fault::Absent),
            Some(b) => match parse_node(b, order, max_fanout) {
                Ok(n) => Ok(n),
                Err(e) => Err(Fault::Corrupt(e)),
            },
        }
    }
}

/// The child of an internal node that `key` is routed to.
pub open spec fn routed(first: Seq<u8>, entries: Seq<(Seq<u8>, Seq<u8>)>, key: Seq<u8>) -> Seq<u8> {
    let c = slot_of(Seq::new(entries.len(), |i: int| entries[i].0), key);
    if c == 0 {
        first
    } else {
        entries[c - 1].1
    }
}

/// What following `key` down from the node `id` comes to, over at most `levels`
/// nodes: the value in the leaf, or what is wrong with a node on the way.
pub open spec fn followed(
    payloads: Set<Seq<u8>>,
    id: Seq<u8>,
    key: Seq<u8>,
    order: u16,
    max_fanout: u32,
    levels: nat,
) -> Result<Option<Seq<u8>>, Fault>
    decreases levels,
{
    if levels == 0 {
        Err(Fault::TooDeep)
    } else {
        match node_at(payloads, id, order, max_fanout) {
            Err(f) => Err(f),
            Ok(NodeView::Leaf { entries }) => Ok(lookup(entries, key)),
            Ok(NodeView::Internal { first, entries }) => followed(
                payloads,
                routed(first, entries, key),
                key,
                order,
                max_fanout,
                (levels - 1) as nat,
            ),
        }
    }
}

/// The child of an internal node at this place.
pub open spec fn kid_at(first: Seq<u8>, entries: Seq<(Seq<u8>, Seq<u8>)>, i: int) -> Seq<u8> {
    if i == 0 {
        first
    } else {
        entries[i - 1].1
    }
}

/// What the search for the last entry below `key` comes to from the node `id` on, over at
/// most `levels` nodes down: the entry, or what is wrong with a node on the way.
pub open spec fn sought(
    payloads: Set<Seq<u8>>,
    id: Seq<u8>,
    key: Seq<u8>,
    order: u16,
    max_fanout: u32,
    levels: nat,
) -> Result<Option<(Seq<u8>, Seq<u8>)>, Fault>
    decreases levels, 0nat,
{
    if levels == 0 {
        Err(Fault::TooDeep)
    } else {
        match node_at(payloads, id, order, max_fanout) {
            Err(f) => Err(f),
            Ok(NodeView::Leaf { entries }) => Ok(below(entries, key)),
            Ok(NodeView::Internal { first, entries }) => sought_back(
                payloads,
                first,
                entries,
                slot_of(Seq::new(entries.len(), |i: int| entries[i].0), key) as nat,
                key,
                order,
                max_fanout,
                (levels - 1) as nat,
            ),
        }
    }
}

/// What it comes to under the children of a node from the one at `i` back to the first.
pub open spec fn sought_back(
    payloads: Set<Seq<u8>>,
    first: Seq<u8>,
    entries: Seq<(Seq<u8>, Seq<u8>)>,
    i: nat,
    key: Seq<u8>,
    order: u16,
    max_fanout: u32,
    levels: nat,
) -> Result<Option<(Seq<u8>, Seq<u8>)>, Fault>
    decreases levels, i + 1,
{
    match sought(payloads, kid_at(first, entries, i as int), key, order, max_fanout, levels) {
        Err(f) => Err(f),
        Ok(Some(e)) => Ok(Some(e)),
        Ok(None) => if i == 0 {
            Ok(None)
        } else {
            sought_back(payloads, first, entries, (i - 1) as nat, key, order, max_fanout, levels)
        },
    }
}

/// A child that lies wholly before the start or behind the end is passed over.
pub open spec fn passed_over(
    entries: Seq<(Seq<u8>, Seq<u8>)>,
    i: int,
    start: Option<Seq<u8>>,
    end: Option<Seq<u8>>,
) -> bool {
    ||| start is Some && i < entries.len() && !lex_lt(start->0, entries[i].0)
    ||| end is Some && i > 0 && !lex_lt(entries[i - 1].0, end->0)
}

/// What a scan comes to from the node `id` on, over at most `levels` nodes down: the entries
/// of before and those in range that follow, up to `limit`, and whether more remain; or
/// what is wrong with a node on the way.
pub open spec fn scanned(
    payloads: Set<Seq<u8>>,
    id: Seq<u8>,
    range: (Option<Seq<u8>>, Option<Seq<u8>>),
    limit: nat,
    order: u16,
    max_fanout: u32,
    levels: nat,
    had: (Seq<(Seq<u8>, Seq<u8>)>, bool),
) -> Result<(Seq<(Seq<u8>, Seq<u8>)>, bool), Fault>
    decreases levels, 0nat,
{
    if levels == 0 {
        Err(Fault::TooDeep)
    } else if had.1 {
        Ok(had)
    } else {
        match node_at(payloads, id, order, max_fanout) {
            Err(f) => Err(f),
            Ok(NodeView::Leaf { entries }) => {
                let all = had.0 + range_of(entries, range.0, range.1);
                Ok((first_of(all, limit), all.len() > limit))
            },
            Ok(NodeView::Internal { first, entries }) => scanned_kids(
                payloads,
                first,
                entries,
                entries.len() + 1,
                range,
                limit,
                order,
                max_fanout,
                (levels - 1) as nat,
                had,
            ),
        }
    }
}

/// What it comes to under the first `n` children of a node.
pub open spec fn scanned_kids(
    payloads: Set<Seq<u8>>,
    first: Seq<u8>,
    entries: Seq<(Seq<u8>, Seq<u8>)>,
    n: nat,
    range: (Option<Seq<u8>>, Option<Seq<u8>>),
    limit: nat,
    order: u16,
    max_fanout: u32,
    levels: nat,
    had: (Seq<(Seq<u8>, Seq<u8>)>, bool),
) -> Result<(Seq<(Seq<u8>, Seq<u8>)>, bool), Fault>
    decreases levels, n + 1,
{
    if n == 0 {
        Ok(had)
    } else {
        let i = (n - 1) as nat;
        match scanned_kids(
            payloads,
            first,
            entries,
            i,
            range,
            limit,
            order,
            max_fanout,
            levels,
            had,
        ) {
            Err(f) => Err(f),
            Ok(so_far) => if passed_over(entries, i as int, range.0, range.1) {
                Ok(so_far)
            } else {
                scanned(
                    payloads,
                    kid_at(first, entries, i as int),
                    range,
                    limit,
                    order,
                    max_fanout,
                    levels,
                    so_far,
                )
            },
        }
    }
}

/// What a scan of everything under `root` comes to, as far as a list can hold it.
pub open spec fn walked_whole(
    payloads: Set<Seq<u8>>,
    root: Seq<u8>,
    order: u16,
    max_fanout: u32,
) -> Result<(Seq<(Seq<u8>, Seq<u8>)>, bool), Fault> {
    scanned(
        payloads,
        root,
        (None, None),
        usize::MAX as nat,
        order,
        max_fanout,
        max_height(),
        (Seq::empty(), false),
    )
}

/// A scan that fails under some children fails under more of them in the same way.
proof fn lemma_scan_stops(
    payloads: Set<Seq<u8>>,
    first: Seq<u8>,
    entries: Seq<(Seq<u8>, Seq<u8>)>,
    n: nat,
    m: nat,
    range: (Option<Seq<u8>>, Option<Seq<u8>>),
    limit: nat,
    order: u16,
    max_fanout: u32,
    levels: nat,
    had: (Seq<(Seq<u8>, Seq<u8>)>, bool),
)
    requires
        n <= m,
        scanned_kids(payloads, first, entries, n, range, limit, order, max_fanout, levels, had) is Err,
    ensures
        scanned_kids(payloads, first, entries, m, range, limit, order, max_fanout, levels, had)
            == scanned_kids(payloads, first, entries, n, range, limit, order, max_fanout, levels, had),
    decreases m - n,
{
    if n < m {
        lemma_scan_stops(
            payloads,
            first,
            entries,
            n,
            (m - 1) as nat,
            range,
            limit,
            order,
            max_fanout,
            levels,
            had,
        );
    }
}

/// The separators and children of a node are its keys and what they lead to.
proof fn lemma_kids_at(
    first: Seq<u8>,
    entries: Seq<(Seq<u8>, Seq<u8>)>,
    seps: Seq<Seq<u8>>,
    kids: Seq<Seq<u8>>,
)
    requires
        kids.len() == seps.len() + 1,
        inner_view(seps, kids) == (NodeView::Internal { first, entries }),
    ensures
        seps == Seq::new(entries.len(), |i: int| entries[i].0),
        forall|i: int| 0 <= i < kids.len() ==> #[trigger] kid_at(first, entries, i) == kids[i],
{
    let v = inner_view(seps, kids)->Internal_entries;
    assert(v == entries);
    assert(seps =~= Seq::new(entries.len(), |i: int| entries[i].0)) by {
        assert forall|i: int| 0 <= i < entries.len() implies #[trigger] entries[i].0 == seps[i] by {
            assert(v[i] == entries[i]);
        }
    }
    assert forall|i: int| 0 <= i < kids.len() implies #[trigger] kid_at(first, entries, i)
        == kids[i] by {
        if i > 0 {
            assert(v[i - 1] == entries[i - 1]);
        }
    }
}

/// The node at `node_id`. `t` is the tree expected there, where there is one.
pub(crate) fn fetch<P: ObjectProvider>(
    node_id: ChunkId,
    order: u16,
    max_fanout: u32,
    provider: &P,
    Ghost(t): Ghost<Tree>,
) -> (r: Result<Node, BTreeError>)
    ensures
        r matches Ok(n) ==> node_ok(n@, max_fanout) && node_id@ != zero_id(),
        r matches Ok(n) ==> provider.faithful() ==> provider.payloads().contains(
            node_bytes(n@, order),
        ) && digest(node_bytes(n@, order)) == node_id@,
        trusty(provider) && node_id@ == tree_id(t, order) && provider.payloads().contains(
            tree_bytes(t, order),
        ) && sized(t, max_fanout) && keyed(t) ==> match r {
            Ok(n) => n@ == node_of(t, order),
            Err(_) => provider.may_fail(),
        },
        trusty(provider) ==> match r {
            Ok(n) => node_at(provider.payloads(), node_id@, order, max_fanout) == Ok::<
                NodeView,
                Fault,
            >(n@),
            Err(e) => provider.may_fail() || (node_at(
                provider.payloads(),
                node_id@,
                order,
                max_fanout,
            ) matches Err(f) && says(e, f)),
        },
{
    if node_id.is_zero() {
        return Err(BTreeError::Invariant("zero node id".to_string()));
    }
    let bytes = match provider.get(&node_id) {
        Ok(Some(b)) => b,
        Ok(None) => return Err(BTreeError::Invariant("missing node".to_string())),
        Err(e) => return Err(e),
    };
    proof {
        lemma_node_of(t, order);
        if sized(t, max_fanout) && keyed(t) {
            lemma_node_ok(t, order, max_fanout);
            node_round_trip(node_of(t, order), order, max_fanout);
        }
        if parse_node(bytes@, order, max_fanout) is Ok {
            node_canonical(bytes@, order, max_fanout);
        }
    }
    match Node::decode(&bytes, order, max_fanout) {
        Ok(n) => Ok(n),
        Err(e) => Err(BTreeError::corrupt(e)),
    }
}

/// Position of `key` among sorted entries, and whether it is there.
pub(crate) fn find_entry(entries: &Vec<Entry>, key: &[u8]) -> (r: (bool, usize))
    requires
        sorted(pairs(entries@)),
    ensures
        r.1 == rank(pairs(entries@), key@),
        r.0 == has_key(pairs(entries@), key@),
        r.1 <= entries@.len(),
{
    let ghost s = pairs(entries@);
    proof {
        lemma_rank(s, key@);
        lemma_lex_order();
    }
    let mut lo: usize = 0;
    let mut hi: usize = entries.len();
    while lo < hi
        invariant
            lo <= hi <= entries@.len(),
            s == pairs(entries@),
            sorted(s),
            lo <= rank(s, key@) <= hi,
            forall|i: int| 0 <= i < rank(s, key@) ==> lex_lt((#[trigger] s[i]).0, key@),
            forall|i: int| rank(s, key@) <= i < s.len() ==> !lex_lt((#[trigger] s[i]).0, key@),
        decreases hi - lo,
    {
        let mid: usize = lo + (hi - lo) / 2;
        assert(s[mid as int] == (entries@[mid as int].key@, entries@[mid as int].value@));
        if lex_less(&entries[mid].key, key) {
            lo = mid + 1;
        } else {
            hi = mid;
        }
    }
    if lo < entries.len() {
        assert(s[lo as int] == (entries@[lo as int].key@, entries@[lo as int].value@));
        // At the rank the key is not below the sought one: it is equal or above.
        let above = lex_less(key, &entries[lo].key);
        (!above, lo)
    } else {
        (false, lo)
    }
}

/// The child that `key` is routed to.
pub(crate) fn find_slot(seps: &Vec<Vec<u8>>, key: &[u8]) -> (r: usize)
    requires
        increasing(key_views(seps@)),
    ensures
        r == slot_of(key_views(seps@), key@),
        r <= seps@.len(),
{
    let ghost s = key_views(seps@);
    proof {
        lemma_lex_order();
    }
    let mut lo: usize = 0;
    let mut hi: usize = seps.len();
    while lo < hi
        invariant
            lo <= hi <= seps@.len(),
            s == key_views(seps@),
            increasing(s),
            lo > 0 ==> !lex_lt(key@, s[lo - 1]),
            hi < s.len() ==> lex_lt(key@, s[hi as int]),
        decreases hi - lo,
    {
        let mid: usize = lo + (hi - lo) / 2;
        assert(s[mid as int] == seps@[mid as int]@);
        if lex_less(key, &seps[mid]) {
            hi = mid;
        } else {
            lo = mid + 1;
        }
    }
    proof {
        lemma_slot_is(s, key@, lo as int);
    }
    lo
}

/// Separators and child ids of an internal node.
pub(crate) fn branch_of(first_child: ChunkId, entries: &Vec<Entry>) -> (r: (
    Vec<Vec<u8>>,
    Vec<ChunkId>,
))
    requires
        inner_encodable(pairs(entries@)),
    ensures
        r.1@.len() == r.0@.len() + 1,
        r.0@.len() == entries@.len(),
        seps_encodable(key_views(r.0@)),
        inner_view(key_views(r.0@), id_views(r.1@)) == (NodeView::Internal {
            first: first_child@,
            entries: pairs(entries@),
        }),
        sorted(pairs(entries@)) ==> increasing(key_views(r.0@)),
{
    let ghost es = pairs(entries@);
    let mut seps: Vec<Vec<u8>> = Vec::with_capacity(entries.len());
    let mut kids: Vec<ChunkId> = Vec::with_capacity(entries.len());
    kids.push(first_child);
    let mut i: usize = 0;
    while i < entries.len()
        invariant
            i <= entries@.len(),
            es == pairs(entries@),
            inner_encodable(es),
            seps@.len() == i,
            kids@.len() == i + 1,
            kids@[0]@ == first_child@,
            forall|j: int| 0 <= j < i ==> seps@[j]@ == (#[trigger] es[j]).0,
            forall|j: int| 0 <= j < i ==> kids@[j + 1]@ == (#[trigger] es[j]).1,
        decreases entries@.len() - i,
    {
        let e = &entries[i];
        assert(es[i as int] == (e.key@, e.value@));
        seps.push(copy_bytes(&e.key));
        kids.push(ChunkId::from_slice(&e.value));
        i += 1;
    }
    proof {
        let ks = key_views(seps@);
        let ids = id_views(kids@);
        assert forall|j: int| 0 <= j < ks.len() implies (#[trigger] ks[j]).len() <= u16::MAX by {
            assert(ks[j] == es[j].0);
        }
        let v = inner_view(ks, ids);
        assert(v->Internal_entries =~= es) by {
            assert forall|j: int| 0 <= j < es.len() implies #[trigger] v->Internal_entries[j]
                == es[j] by {
                assert(v->Internal_entries[j] == (ks[j], ids[j + 1]));
                assert(es[j].0 == seps@[j]@);
                assert(es[j].1 == kids@[j + 1]@);
            }
        }
        if sorted(es) {
            assert forall|a: int, b: int| #![trigger ks[a], ks[b]]
                0 <= a < b < ks.len() implies lex_lt(ks[a], ks[b]) by {
                assert(ks[a] == es[a].0 && ks[b] == es[b].0);
            }
        }
    }
    (seps, kids)
}

/// The separators and child ids of a node are those of the tree it is the root of.
pub(crate) proof fn lemma_branch(
    seps: Seq<Seq<u8>>,
    ids: Seq<Seq<u8>>,
    t: Tree,
    order: u16,
)
    requires
        ids.len() == seps.len() + 1,
        t is Internal,
        t->kids.len() == t->seps.len() + 1,
        node_of(t, order) == inner_view(seps, ids),
    ensures
        seps == t->seps,
        ids == tree_ids(t->kids, order),
{
    let tids = tree_ids(t->kids, order);
    let es = inner_view(seps, ids)->Internal_entries;
    let es2 = inner_view(t->seps, tids)->Internal_entries;
    assert(es == es2);
    assert(es.len() == seps.len());
    assert forall|i: int| 0 <= i < seps.len() implies seps[i] == t->seps[i] by {
        assert(es[i] == (seps[i], ids[i + 1]));
        assert(es2[i] == (t->seps[i], tids[i + 1]));
    }
    assert(seps =~= t->seps);
    assert forall|i: int| 0 <= i < ids.len() implies ids[i] == tids[i] by {
        if i > 0 {
            assert(es[i - 1] == (seps[i - 1], ids[i]));
            assert(es2[i - 1] == (t->seps[i - 1], tids[i]));
        }
    }
    assert(ids =~= tids);
}

/// Every child of a held tree is held, between the separators around it.
pub(crate) proof fn lemma_kid_holds(
    payloads: Set<Seq<u8>>,
    t: Tree,
    order: u16,
    max_fanout: u32,
    lo: Option<Seq<u8>>,
    hi: Option<Seq<u8>>,
    i: int,
)
    requires
        t is Internal,
        holds(payloads, tree_id(t, order), t, order, max_fanout, lo, hi),
        0 <= i < t->kids.len(),
    ensures
        holds(
            payloads,
            tree_ids(t->kids, order)[i],
            t->kids[i],
            order,
            max_fanout,
            kid_lo(t->seps, lo, i),
            kid_hi(t->seps, hi, i),
        ),
        height(t->kids[i]) < height(t),
{
    lemma_height_kids(t->seps, t->kids);
}

// ---------------------------------------------------------------------------
// Lookup
// ---------------------------------------------------------------------------

/// Look up a key; returns the value bytes.
pub fn get<P: ObjectProvider>(
    root: ChunkId,
    key: &[u8],
    order: u16,
    max_fanout: u32,
    provider: &P,
) -> (r: Result<Option<Vec<u8>>, BTreeError>)
    ensures
        root@ == zero_id() ==> r == Ok::<Option<Vec<u8>>, BTreeError>(None),
        root@ != zero_id() && trusty(provider) ==> match r {
            Ok(v) => followed(provider.payloads(), root@, key@, order, max_fanout, max_height())
                == Ok::<Option<Seq<u8>>, Fault>(opt_bytes(v)),
            Err(e) => provider.may_fail() || (followed(
                provider.payloads(),
                root@,
                key@,
                order,
                max_fanout,
                max_height(),
            ) matches Err(f) && says(e, f)),
        },
        forall|h: nat, s: Seq<(Seq<u8>, Seq<u8>)>|
            trusty(provider) && #[trigger] lists(
                provider.payloads(),
                root@,
                order,
                max_fanout,
                h,
                s,
            ) ==> match r {
                Ok(v) => opt_bytes(v) == lookup(s, key@),
                Err(_) => provider.may_fail() || h > max_height(),
            },
{
    if root.is_zero() {
        return Ok(None);
    }
    let ghost payloads = provider.payloads();
    let ghost t0 = tree_at(payloads, root@, order, max_fanout);
    let ghost good = trusty(provider) && holds(
        payloads,
        root@,
        t0,
        order,
        max_fanout,
        None,
        None,
    );
    proof {
        if clash_free(payloads) {
            lemma_tree_at(payloads, root@, order, max_fanout);
        }
    }
    let mut node_id = root;
    let mut depth: u32 = 0;
    let ghost mut t: Tree = t0;
    let ghost mut lo: Option<Seq<u8>> = None;
    let ghost mut hi: Option<Seq<u8>> = None;
    loop
        invariant
            depth <= 129,
            payloads == provider.payloads(),
            good ==> trusty(provider),
            good ==> holds(payloads, node_id@, t, order, max_fanout, lo, hi),
            good ==> height(t) + depth <= height(t0),
            good ==> lookup(flat(t), key@) == lookup(flat(t0), key@),
            trusty(provider) ==> followed(
                payloads,
                root@,
                key@,
                order,
                max_fanout,
                max_height(),
            ) == followed(payloads, node_id@, key@, order, max_fanout, (129 - depth) as nat),
            forall|h: nat, s: Seq<(Seq<u8>, Seq<u8>)>|
                trusty(provider) && #[trigger] lists(
                    payloads,
                    root@,
                    order,
                    max_fanout,
                    h,
                    s,
                ) ==> good && s == flat(t0) && height(t0) <= h,
            root@ != zero_id(),
        decreases 129 - depth,
    {
        if depth > 128 {
            return Err(BTreeError::Invariant("tree depth exceeded".to_string()));
        }
        depth += 1;
        proof {
            if good {
                lemma_ordered_keyed(t, lo, hi);
            }
        }
        let node = match fetch(node_id, order, max_fanout, provider, Ghost(t)) {
            Ok(n) => n,
            Err(e) => return Err(e),
        };
        match node {
            Node::Leaf { entries } => {
                let (found, at) = find_entry(&entries, key);
                assert(good ==> pairs(entries@) == flat(t));
                if found {
                    assert(pairs(entries@)[at as int] == (
                        entries@[at as int].key@,
                        entries@[at as int].value@,
                    ));
                    return Ok(Some(copy_bytes(&entries[at].value)));
                }
                return Ok(None);
            },
            Node::Internal { first_child, entries } => {
                let (seps, kids) = branch_of(first_child, &entries);
                let slot: usize = find_slot(&seps, key);
                proof {
                    let es = pairs(entries@);
                    assert(key_views(seps@) =~= Seq::new(es.len(), |i: int| es[i].0)) by {
                        let v = inner_view(key_views(seps@), id_views(kids@))->Internal_entries;
                        assert forall|i: int| 0 <= i < es.len() implies #[trigger] es[i].0
                            == key_views(seps@)[i] by {
                            assert(v[i] == es[i]);
                        }
                    }
                    let v = inner_view(key_views(seps@), id_views(kids@));
                    assert(id_views(kids@)[slot as int] == kids@[slot as int]@);
                    if slot > 0 {
                        assert(v->Internal_entries[slot - 1] == es[slot - 1]);
                    }
                    assert(routed(first_child@, es, key@) == kids@[slot as int]@);
                    if good {
                        lemma_branch(key_views(seps@), id_views(kids@), t, order);
                        lemma_route(t->seps, t->kids, lo, hi, key@);
                        lemma_kid_holds(payloads, t, order, max_fanout, lo, hi, slot as int);
                        lemma_rank_context(
                            concat(flats(t->kids).take(slot as int)),
                            flat(t->kids[slot as int]),
                            concat(flats(t->kids).skip(slot + 1)),
                            key@,
                        );
                        assert(id_views(kids@)[slot as int] == kids@[slot as int]@);
                        let seps_t = t->seps;
                        let kid = t->kids[slot as int];
                        lo = kid_lo(seps_t, lo, slot as int);
                        hi = kid_hi(seps_t, hi, slot as int);
                        t = kid;
                    }
                }
                node_id = kids[slot];
            },
        }
    }
}

/// The largest key strictly less than `key` (predecessor), with its value.
pub fn predecessor<P: ObjectProvider>(
    root: ChunkId,
    key: &[u8],
    order: u16,
    max_fanout: u32,
    provider: &P,
) -> (r: Result<Option<EntryPair>, BTreeError>)
    ensures
        root@ == zero_id() ==> r == Ok::<Option<EntryPair>, BTreeError>(None),
        root@ != zero_id() && trusty(provider) ==> match r {
            Ok(v) => sought(provider.payloads(), root@, key@, order, max_fanout, max_height())
                == Ok::<Option<(Seq<u8>, Seq<u8>)>, Fault>(opt_pair(v)),
            Err(e) => provider.may_fail() || (sought(
                provider.payloads(),
                root@,
                key@,
                order,
                max_fanout,
                max_height(),
            ) matches Err(f) && says(e, f)),
        },
        forall|h: nat, s: Seq<(Seq<u8>, Seq<u8>)>|
            trusty(provider) && #[trigger] lists(
                provider.payloads(),
                root@,
                order,
                max_fanout,
                h,
                s,
            ) ==> match r {
                Ok(v) => opt_pair(v) == below(s, key@),
                Err(_) => provider.may_fail() || h > max_height(),
            },
{
    if root.is_zero() {
        return Ok(None);
    }
    let ghost t = tree_at(provider.payloads(), root@, order, max_fanout);
    proof {
        if clash_free(provider.payloads()) {
            lemma_tree_at(provider.payloads(), root@, order, max_fanout);
        }
    }
    below_rec(root, key, order, max_fanout, provider, 0, Ghost(t), Ghost(None), Ghost(None))
}

/// The last entry of a listing.
pub open spec fn last_of<V>(s: Seq<(Seq<u8>, V)>) -> Option<(Seq<u8>, V)> {
    if s.len() > 0 {
        Some(s.last())
    } else {
        None
    }
}

fn below_rec<P: ObjectProvider>(
    node_id: ChunkId,
    key: &[u8],
    order: u16,
    max_fanout: u32,
    provider: &P,
    depth: u32,
    Ghost(t): Ghost<Tree>,
    Ghost(lo): Ghost<Option<Seq<u8>>>,
    Ghost(hi): Ghost<Option<Seq<u8>>>,
) -> (r: Result<Option<EntryPair>, BTreeError>)
    requires
        depth <= 129,
    ensures
        trusty(provider) && holds(
            provider.payloads(),
            node_id@,
            t,
            order,
            max_fanout,
            lo,
            hi,
        ) ==> match r {
            Ok(v) => opt_pair(v) == below(flat(t), key@),
            Err(_) => provider.may_fail() || height(t) + depth > max_height(),
        },
        trusty(provider) ==> ({
            let s = sought(
                provider.payloads(),
                node_id@,
                key@,
                order,
                max_fanout,
                (129 - depth) as nat,
            );
            match r {
                Ok(v) => s == Ok::<Option<(Seq<u8>, Seq<u8>)>, Fault>(opt_pair(v)),
                Err(e) => provider.may_fail() || (s matches Err(f) && says(e, f)),
            }
        }),
    decreases 129 - depth,
{
    let ghost payloads = provider.payloads();
    let ghost good = trusty(provider) && holds(
        payloads,
        node_id@,
        t,
        order,
        max_fanout,
        lo,
        hi,
    );
    if depth > 128 {
        return Err(BTreeError::Invariant("tree depth exceeded".to_string()));
    }
    proof {
        if good {
            lemma_ordered_keyed(t, lo, hi);
        }
    }
    let node = match fetch(node_id, order, max_fanout, provider, Ghost(t)) {
        Ok(n) => n,
        Err(e) => return Err(e),
    };
    match node {
        Node::Leaf { entries } => {
            let (_, at) = find_entry(&entries, key);
            assert(good ==> pairs(entries@) == flat(t));
            if at > 0 {
                let e = &entries[at - 1];
                assert(pairs(entries@)[at - 1] == (e.key@, e.value@));
                return Ok(Some((copy_bytes(&e.key), copy_bytes(&e.value))));
            }
            Ok(None)
        },
        Node::Internal { first_child, entries } => {
            let (seps, kids) = branch_of(first_child, &entries);
            let slot: usize = find_slot(&seps, key);
            let ghost fs = flats(t->kids);
            let ghost es = pairs(entries@);
            let ghost due = sought(payloads, node_id@, key@, order, max_fanout, (129 - depth) as nat);
            proof {
                lemma_kids_at(first_child@, es, key_views(seps@), id_views(kids@));
                assert(id_views(kids@)[slot as int] == kids@[slot as int]@);
                if good {
                    lemma_branch(key_views(seps@), id_views(kids@), t, order);
                    lemma_kid_holds(payloads, t, order, max_fanout, lo, hi, slot as int);
                    assert(id_views(kids@)[slot as int] == kids@[slot as int]@);
                }
            }
            match below_rec(
                kids[slot],
                key,
                order,
                max_fanout,
                provider,
                depth + 1,
                Ghost(t->kids[slot as int]),
                Ghost(kid_lo(t->seps, lo, slot as int)),
                Ghost(kid_hi(t->seps, hi, slot as int)),
            ) {
                Err(e) => return Err(e),
                Ok(Some(p)) => {
                    proof {
                        if good {
                            lemma_below_route(t, lo, hi, key@);
                        }
                    }
                    return Ok(Some(p));
                },
                Ok(None) => {},
            }
            proof {
                if good {
                    lemma_below_route(t, lo, hi, key@);
                }
            }
            // Nothing below the key under its own child: the entry sought is
            // the last one of the children before it.
            let mut j: usize = slot;
            while j > 0
                invariant
                    j <= slot < kids@.len(),
                    depth <= 128,
                    payloads == provider.payloads(),
                    good == (trusty(provider) && holds(
                        payloads,
                        node_id@,
                        t,
                        order,
                        max_fanout,
                        lo,
                        hi,
                    )),
                    good ==> t is Internal && slot == slot_of(t->seps, key@),
                    good ==> fs == flats(t->kids) && fs.len() == kids@.len(),
                    good ==> id_views(kids@) == tree_ids(t->kids, order),
                    good ==> below(flat(t), key@) == last_of(concat(fs.take(j as int))),
                    forall|i: int|
                        0 <= i < kids@.len() ==> #[trigger] kid_at(first_child@, es, i) == id_views(
                            kids@,
                        )[i],
                    trusty(provider) ==> due == if j == 0 {
                        Ok::<Option<(Seq<u8>, Seq<u8>)>, Fault>(None)
                    } else {
                        sought_back(
                            payloads,
                            first_child@,
                            es,
                            (j - 1) as nat,
                            key@,
                            order,
                            max_fanout,
                            (128 - depth) as nat,
                        )
                    },
                    due == sought(
                        payloads,
                        node_id@,
                        key@,
                        order,
                        max_fanout,
                        (129 - depth) as nat,
                    ),
                decreases j,
            {
                j -= 1;
                proof {
                    assert(kid_at(first_child@, es, j as int) == kids@[j as int]@) by {
                        assert(id_views(kids@)[j as int] == kids@[j as int]@);
                    }
                    if good {
                        lemma_kid_holds(payloads, t, order, max_fanout, lo, hi, j as int);
                        assert(id_views(kids@)[j as int] == kids@[j as int]@);
                        lemma_below_before(t, lo, hi, key@, j as int);
                    }
                }
                match below_rec(
                    kids[j],
                    key,
                    order,
                    max_fanout,
                    provider,
                    depth + 1,
                    Ghost(t->kids[j as int]),
                    Ghost(kid_lo(t->seps, lo, j as int)),
                    Ghost(kid_hi(t->seps, hi, j as int)),
                ) {
                    Err(e) => return Err(e),
                    Ok(Some(p)) => return Ok(Some(p)),
                    Ok(None) => {},
                }
            }
            assert(good ==> concat(fs.take(0)) =~= Seq::empty());
            Ok(None)
        },
    }
}

/// The entry below a key is under the child that the key is routed to, or else
/// the last one before that child.
proof fn lemma_below_route(t: Tree, lo: Option<Seq<u8>>, hi: Option<Seq<u8>>, k: Seq<u8>)
    requires
        t is Internal,
        ordered(t, lo, hi),
    ensures
        ({
            let c = slot_of(t->seps, k);
            let kid = flat(t->kids[c]);
            &&& 0 <= c < t->kids.len()
            &&& below(flat(t), k) == if below(kid, k) is Some {
                below(kid, k)
            } else {
                last_of(concat(flats(t->kids).take(c)))
            }
        }),
{
    lemma_route(t->seps, t->kids, lo, hi, k);
    let c = slot_of(t->seps, k);
    let a = concat(flats(t->kids).take(c));
    let m = flat(t->kids[c]);
    let z = concat(flats(t->kids).skip(c + 1));
    lemma_rank_context(a, m, z, k);
    lemma_rank(m, k);
    let s = a + m + z;
    let r = rank(s, k);
    assert(Tree::Internal { seps: t->seps, kids: t->kids } == t);
    if rank(m, k) > 0 {
        assert(s[r - 1] == m[rank(m, k) - 1]);
    } else if a.len() > 0 {
        assert(s[r - 1] == a[a.len() - 1]);
    }
}

/// Children before the one that a key is routed to are wholly below the key.
proof fn lemma_below_before(
    t: Tree,
    lo: Option<Seq<u8>>,
    hi: Option<Seq<u8>>,
    k: Seq<u8>,
    j: int,
)
    requires
        t is Internal,
        ordered(t, lo, hi),
        0 <= j < slot_of(t->seps, k),
    ensures
        j < t->kids.len(),
        ({
            let kid = flat(t->kids[j]);
            &&& below(kid, k) == last_of(kid)
            &&& last_of(concat(flats(t->kids).take(j + 1))) == if kid.len() > 0 {
                last_of(kid)
            } else {
                last_of(concat(flats(t->kids).take(j)))
            }
        }),
{
    lemma_lex_order();
    lemma_route(t->seps, t->kids, lo, hi, k);
    let c = slot_of(t->seps, k);
    let fs = flats(t->kids);
    let kid = flat(t->kids[j]);
    assert(ordered(t->kids[j], kid_lo(t->seps, lo, j), kid_hi(t->seps, hi, j)));
    lemma_ordered_flat(t->kids[j], kid_lo(t->seps, lo, j), kid_hi(t->seps, hi, j));
    lemma_slot(t->seps, k);
    assert(!lex_lt(k, t->seps[j]));
    assert(all_lt(kid, k));
    lemma_rank_is(kid, k, kid.len() as int);
    assert(fs.take(j + 1).drop_last() =~= fs.take(j));
}

// ---------------------------------------------------------------------------
// Scans
// ---------------------------------------------------------------------------

/// `k` lies in `[start, end)`; a missing bound is open.
pub open spec fn in_range(start: Option<Seq<u8>>, end: Option<Seq<u8>>, k: Seq<u8>) -> bool {
    &&& start is Some ==> !lex_lt(k, start->0)
    &&& end is Some ==> lex_lt(k, end->0)
}

/// The entries with keys in `[start, end)`.
pub open spec fn range_of<V>(
    s: Seq<(Seq<u8>, V)>,
    start: Option<Seq<u8>>,
    end: Option<Seq<u8>>,
) -> Seq<(Seq<u8>, V)>
    decreases s.len(),
{
    if s.len() == 0 {
        Seq::empty()
    } else {
        let rest = range_of(s.drop_last(), start, end);
        if in_range(start, end, s.last().0) {
            rest.push(s.last())
        } else {
            rest
        }
    }
}

/// The first `limit` entries of `s`.
pub open spec fn first_of<V>(s: Seq<(Seq<u8>, V)>, limit: nat) -> Seq<(Seq<u8>, V)> {
    if s.len() <= limit {
        s
    } else {
        s.take(limit as int)
    }
}

pub open spec fn opt_slice(v: Option<&[u8]>) -> Option<Seq<u8>> {
    match v {
        Some(b) => Some(b@),
        None => None,
    }
}

proof fn lemma_range_split<V>(
    a: Seq<(Seq<u8>, V)>,
    b: Seq<(Seq<u8>, V)>,
    start: Option<Seq<u8>>,
    end: Option<Seq<u8>>,
)
    ensures
        range_of(a + b, start, end) == range_of(a, start, end) + range_of(b, start, end),
    decreases b.len(),
{
    if b.len() == 0 {
        assert(a + b =~= a);
        assert(range_of(a, start, end) + range_of(b, start, end) =~= range_of(a, start, end));
    } else {
        lemma_range_split(a, b.drop_last(), start, end);
        assert((a + b).drop_last() =~= a + b.drop_last());
        assert(range_of(a + b, start, end) =~= range_of(a, start, end) + range_of(b, start, end));
    }
}

proof fn lemma_range_none<V>(
    s: Seq<(Seq<u8>, V)>,
    start: Option<Seq<u8>>,
    end: Option<Seq<u8>>,
)
    requires
        forall|i: int| 0 <= i < s.len() ==> !in_range(start, end, (#[trigger] s[i]).0),
    ensures
        range_of(s, start, end) == Seq::<(Seq<u8>, V)>::empty(),
    decreases s.len(),
{
    if s.len() > 0 {
        let p = s.drop_last();
        assert forall|i: int| 0 <= i < p.len() implies !in_range(
            start,
            end,
            (#[trigger] p[i]).0,
        ) by {
            assert(p[i] == s[i]);
        }
        lemma_range_none(p, start, end);
        assert(!in_range(start, end, s[s.len() - 1].0));
    }
}

proof fn lemma_range_all<V>(s: Seq<(Seq<u8>, V)>)
    ensures
        range_of(s, None, None) == s,
    decreases s.len(),
{
    if s.len() > 0 {
        lemma_range_all(s.drop_last());
        assert(s.drop_last().push(s.last()) =~= s);
    } else {
        assert(s =~= Seq::empty());
    }
}

/// A range with no upper bound is the tail of the listing from the start key on.
pub proof fn lemma_range_from<V>(s: Seq<(Seq<u8>, V)>, start: Option<Seq<u8>>)
    requires
        sorted(s),
    ensures
        range_of(s, start, None) == match start {
            None => s,
            Some(k) => s.skip(rank(s, k)),
        },
    decreases s.len(),
{
    match start {
        None => lemma_range_all(s),
        Some(k) => {
            lemma_rank(s, k);
            if s.len() > 0 {
                let p = s.drop_last();
                assert forall|i: int, j: int| #![trigger p[i], p[j]]
                    0 <= i < j < p.len() implies lex_lt(p[i].0, p[j].0) by {
                    assert(p[i] == s[i] && p[j] == s[j]);
                }
                lemma_range_from(p, start);
                lemma_rank(p, k);
                if lex_lt(s.last().0, k) {
                    assert(rank(s, k) == s.len());
                    assert(rank(p, k) == p.len()) by {
                        if rank(p, k) < p.len() {
                            assert(!lex_lt(p[rank(p, k)].0, k));
                            assert(lex_lt(s[rank(p, k)].0, k));
                        }
                    }
                    assert(s.skip(rank(s, k)) =~= p.skip(rank(p, k)));
                } else {
                    assert(s.skip(rank(s, k)) =~= p.skip(rank(p, k)).push(s.last()));
                }
            } else {
                assert(s.skip(rank(s, k)) =~= Seq::empty());
            }
        },
    }
}

/// Mutable scan output state.
struct ScanState {
    out: Vec<EntryPair>,
    has_more: bool,
}

impl ScanState {
    /// The entries taken, and whether more remain.
    spec fn view(&self) -> (Seq<(Seq<u8>, Seq<u8>)>, bool) {
        (pair_views(self.out@), self.has_more)
    }

    /// The state after the in-range entries `full` were met.
    spec fn shows(&self, full: Seq<(Seq<u8>, Seq<u8>)>, limit: nat) -> bool {
        &&& pair_views(self.out@) == first_of(full, limit)
        &&& self.has_more == (full.len() > limit)
    }
}

/// Once more remain than the limit, further entries change nothing.
proof fn lemma_shows_more(
    st: ScanState,
    full: Seq<(Seq<u8>, Seq<u8>)>,
    more: Seq<(Seq<u8>, Seq<u8>)>,
    limit: nat,
)
    requires
        st.shows(full, limit),
        st.has_more || more.len() == 0,
    ensures
        st.shows(full + more, limit),
{
    if st.has_more {
        assert((full + more).take(limit as int) =~= full.take(limit as int));
    } else {
        assert(full + more =~= full);
    }
}

/// Scan keys in `[start, end)` (inclusive lower, exclusive upper); `None` bounds
/// are open. Returns up to `limit` entries in key order, plus whether more
/// remain and the last key returned.
pub fn scan<P: ObjectProvider>(
    root: ChunkId,
    start: Option<&[u8]>,
    end: Option<&[u8]>,
    limit: usize,
    order: u16,
    max_fanout: u32,
    provider: &P,
) -> (r: Result<ScanOut, BTreeError>)
    ensures
        root@ == zero_id() ==> r is Ok,
        root@ != zero_id() && trusty(provider) ==> ({
            let s = scanned(
                provider.payloads(),
                root@,
                (opt_slice(start), opt_slice(end)),
                limit as nat,
                order,
                max_fanout,
                max_height(),
                (Seq::empty(), false),
            );
            match r {
                Ok(o) => s == Ok::<(Seq<(Seq<u8>, Seq<u8>)>, bool), Fault>((pair_views(o.0@), o.1)),
                Err(e) => provider.may_fail() || (s matches Err(f) && says(e, f)),
            }
        }),
        forall|h: nat, s: Seq<(Seq<u8>, Seq<u8>)>|
            (trusty(provider) || root@ == zero_id()) && #[trigger] lists(
                provider.payloads(),
                root@,
                order,
                max_fanout,
                h,
                s,
            ) ==> match r {
                Ok(o) => {
                    let all = range_of(s, opt_slice(start), opt_slice(end));
                    &&& pair_views(o.0@) == first_of(all, limit as nat)
                    &&& o.1 == (all.len() > limit)
                },
                Err(_) => provider.may_fail() || h > max_height(),
            },
        r matches Ok(o) ==> opt_bytes(o.2) == match last_of(pair_views(o.0@)) {
            Some(p) => Some(p.0),
            None => None,
        },
{
    let mut state = ScanState { out: Vec::new(), has_more: false };
    assert(pair_views(state.out@) =~= Seq::empty());
    if root.is_zero() {
        return Ok((state.out, false, None));
    }
    let ghost t = tree_at(provider.payloads(), root@, order, max_fanout);
    proof {
        if clash_free(provider.payloads()) {
            lemma_tree_at(provider.payloads(), root@, order, max_fanout);
        }
    }
    match scan_rec(
        root,
        start,
        end,
        limit,
        order,
        max_fanout,
        provider,
        0,
        &mut state,
        Ghost(t),
        Ghost(None),
        Ghost(None),
        Ghost(Seq::empty()),
    ) {
        Ok(_) => {},
        Err(e) => return Err(e),
    }
    proof {
        let all = range_of(flat(t), opt_slice(start), opt_slice(end));
        assert(Seq::<(Seq<u8>, Seq<u8>)>::empty() + all =~= all);
    }
    let n: usize = state.out.len();
    let last = if n > 0 {
        assert(pair_views(state.out@)[n - 1].0 == state.out@[n - 1].0@);
        Some(copy_bytes(&state.out[n - 1].0))
    } else {
        None
    };
    Ok((state.out, state.has_more, last))
}

fn scan_rec<P: ObjectProvider>(
    node_id: ChunkId,
    start: Option<&[u8]>,
    end: Option<&[u8]>,
    limit: usize,
    order: u16,
    max_fanout: u32,
    provider: &P,
    depth: u32,
    state: &mut ScanState,
    Ghost(t): Ghost<Tree>,
    Ghost(lo): Ghost<Option<Seq<u8>>>,
    Ghost(hi): Ghost<Option<Seq<u8>>>,
    Ghost(met): Ghost<Seq<(Seq<u8>, Seq<u8>)>>,
) -> (r: Result<(), BTreeError>)
    requires
        depth <= 129,
        old(state).out@.len() <= limit,
    ensures
        final(state).out@.len() <= limit,
        trusty(provider) ==> ({
            let s = scanned(
                provider.payloads(),
                node_id@,
                (opt_slice(start), opt_slice(end)),
                limit as nat,
                order,
                max_fanout,
                (129 - depth) as nat,
                old(state)@,
            );
            match r {
                Ok(_) => s == Ok::<(Seq<(Seq<u8>, Seq<u8>)>, bool), Fault>(final(state)@),
                Err(e) => provider.may_fail() || (s matches Err(f) && says(e, f)),
            }
        }),
        trusty(provider) && holds(
            provider.payloads(),
            node_id@,
            t,
            order,
            max_fanout,
            lo,
            hi,
        ) && old(state).shows(met, limit as nat) ==> match r {
            Ok(_) => final(state).shows(
                met + range_of(flat(t), opt_slice(start), opt_slice(end)),
                limit as nat,
            ),
            Err(_) => provider.may_fail() || height(t) + depth > max_height(),
        },
    decreases 129 - depth,
{
    let ghost payloads = provider.payloads();
    let ghost good = trusty(provider) && holds(
        payloads,
        node_id@,
        t,
        order,
        max_fanout,
        lo,
        hi,
    ) && state.shows(met, limit as nat);
    let ghost s0 = opt_slice(start);
    let ghost e0 = opt_slice(end);
    if depth > 128 {
        return Err(BTreeError::Invariant("tree depth exceeded".to_string()));
    }
    if state.has_more {
        proof {
            if good {
                lemma_shows_more(*state, met, range_of(flat(t), s0, e0), limit as nat);
            }
        }
        return Ok(());
    }
    proof {
        if good {
            lemma_ordered_keyed(t, lo, hi);
        }
    }
    let node = match fetch(node_id, order, max_fanout, provider, Ghost(t)) {
        Ok(n) => n,
        Err(e) => return Err(e),
    };
    match node {
        Node::Leaf { entries } => {
            let ghost all = pairs(entries@);
            assert(good ==> all == flat(t));
            let ghost had = pair_views(old(state).out@);
            let mut i: usize = 0;
            proof {
                assert(had + range_of(all.take(0), s0, e0) =~= had) by {
                    assert(range_of(all.take(0), s0, e0) =~= Seq::empty());
                }
                assert(range_of(all.take(0), s0, e0) =~= Seq::empty());
                assert(met + range_of(all.take(0), s0, e0) =~= met);
            }
            while i < entries.len()
                invariant
                    i <= entries@.len(),
                    all == pairs(entries@),
                    s0 == opt_slice(start),
                    e0 == opt_slice(end),
                    payloads == provider.payloads(),
                    good == (trusty(provider) && holds(
                        payloads,
                        node_id@,
                        t,
                        order,
                        max_fanout,
                        lo,
                        hi,
                    ) && old(state).shows(
                        met,
                        limit as nat,
                    )),
                    good ==> all == flat(t),
                    good ==> state.shows(met + range_of(all.take(i as int), s0, e0), limit as nat),
                    had == pair_views(old(state).out@),
                    state.out@.len() <= limit,
                    !old(state).has_more && !state.has_more,
                    pair_views(state.out@) == had + range_of(all.take(i as int), s0, e0),
                    trusty(provider) ==> ({
                        let full = had + range_of(all, s0, e0);
                        scanned(
                            payloads,
                            node_id@,
                            (s0, e0),
                            limit as nat,
                            order,
                            max_fanout,
                            (129 - depth) as nat,
                            old(state)@,
                        ) == Ok::<(Seq<(Seq<u8>, Seq<u8>)>, bool), Fault>(
                            (first_of(full, limit as nat), full.len() > limit),
                        )
                    }),
                decreases entries@.len() - i,
            {
                let e = &entries[i];
                assert(all[i as int] == (e.key@, e.value@));
                let above = match start {
                    Some(s) => !lex_less(&e.key, s),
                    None => true,
                };
                let under = match end {
                    Some(b) => lex_less(&e.key, b),
                    None => true,
                };
                let ghost sofar = met + range_of(all.take(i as int), s0, e0);
                proof {
                    assert(pair_views(state.out@).len() == state.out@.len());
                    assert(all.take(i + 1).drop_last() =~= all.take(i as int));
                    if above && under {
                        assert(had + range_of(all.take(i + 1), s0, e0) =~= (had + range_of(
                            all.take(i as int),
                            s0,
                            e0,
                        )).push((e.key@, e.value@)));
                    }
                    assert((above && under) == in_range(s0, e0, e.key@));
                    if above && under {
                        assert(met + range_of(all.take(i + 1), s0, e0) =~= sofar.push(
                            (e.key@, e.value@),
                        ));
                    }
                }
                if above && under {
                    if state.out.len() >= limit {
                        state.has_more = true;
                        proof {
                            lemma_range_split(all.take(i + 1), all.skip(i + 1), s0, e0);
                            assert(all.take(i + 1) + all.skip(i + 1) =~= all);
                            let full = had + range_of(all, s0, e0);
                            assert(full =~= had + range_of(all.take(i + 1), s0, e0) + range_of(
                                all.skip(i + 1),
                                s0,
                                e0,
                            ));
                            assert(first_of(full, limit as nat) =~= pair_views(state.out@));
                            if good {
                                let next = sofar.push((e.key@, e.value@));
                                assert(state.shows(next, limit as nat)) by {
                                    assert(pair_views(state.out@).len() == state.out@.len());
                                    assert(next.take(limit as int) =~= sofar.take(limit as int));
                                    if sofar.len() <= limit {
                                        assert(sofar.take(limit as int) =~= sofar);
                                    }
                                }
                                let rest = range_of(all.skip(i + 1), s0, e0);
                                lemma_range_split(all.take(i + 1), all.skip(i + 1), s0, e0);
                                assert(all.take(i + 1) + all.skip(i + 1) =~= all);
                                lemma_shows_more(*state, next, rest, limit as nat);
                                assert(next + rest =~= met + range_of(all, s0, e0));
                            }
                        }
                        return Ok(());
                    }
                    let ghost before = state.out@;
                    state.out.push((copy_bytes(&e.key), copy_bytes(&e.value)));
                    proof {
                        assert(pair_views(before).len() == before.len());
                        assert(pair_views(state.out@) =~= pair_views(before).push(
                            (e.key@, e.value@),
                        ));
                    }
                }
                i += 1;
            }
            assert(all.take(i as int) =~= all);
            assert(pair_views(state.out@).len() == state.out@.len());
            Ok(())
        },
        Node::Internal { first_child, entries } => {
            let (seps, kids) = branch_of(first_child, &entries);
            let ghost fs = flats(t->kids);
            let ghost es = pairs(entries@);
            let ghost lev = (128 - depth) as nat;
            let ghost max = limit as nat;
            let ghost st0 = old(state)@;
            proof {
                lemma_kids_at(first_child@, es, key_views(seps@), id_views(kids@));
                if good {
                    lemma_branch(key_views(seps@), id_views(kids@), t, order);
                    lemma_flat(t->seps, t->kids);
                    assert(concat(fs.take(0)) =~= Seq::empty());
                    assert(range_of(concat(fs.take(0)), s0, e0) =~= Seq::empty());
                    assert(met + range_of(concat(fs.take(0)), s0, e0) =~= met);
                }
            }
            let mut i: usize = 0;
            while i < kids.len()
                invariant
                    i <= kids@.len(),
                    kids@.len() == seps@.len() + 1,
                    depth <= 128,
                    payloads == provider.payloads(),
                    s0 == opt_slice(start),
                    e0 == opt_slice(end),
                    good == (trusty(provider) && holds(
                        payloads,
                        node_id@,
                        t,
                        order,
                        max_fanout,
                        lo,
                        hi,
                    ) && old(state).shows(
                        met,
                        limit as nat,
                    )),
                    good ==> t is Internal && fs == flats(t->kids) && fs.len() == kids@.len(),
                    good ==> flat(t) == concat(fs),
                    good ==> id_views(kids@) == tree_ids(t->kids, order),
                    good ==> key_views(seps@) == t->seps,
                    good ==> state.shows(
                        met + range_of(concat(fs.take(i as int)), s0, e0),
                        limit as nat,
                    ),
                    state.out@.len() <= limit,
                    kids@.len() == es.len() + 1,
                    key_views(seps@) == Seq::new(es.len(), |k: int| es[k].0),
                    forall|k: int|
                        0 <= k < kids@.len() ==> #[trigger] kid_at(first_child@, es, k) == id_views(
                            kids@,
                        )[k],
                    lev == 128 - depth,
                    max == limit,
                    st0 == old(state)@,
                    trusty(provider) ==> scanned_kids(
                        payloads,
                        first_child@,
                        es,
                        i as nat,
                        (s0, e0),
                        max,
                        order,
                        max_fanout,
                        lev,
                        st0,
                    ) == Ok::<(Seq<(Seq<u8>, Seq<u8>)>, bool), Fault>(state@),
                    trusty(provider) ==> scanned(
                        payloads,
                        node_id@,
                        (s0, e0),
                        max,
                        order,
                        max_fanout,
                        lev + 1,
                        st0,
                    ) == scanned_kids(
                        payloads,
                        first_child@,
                        es,
                        kids@.len(),
                        (s0, e0),
                        max,
                        order,
                        max_fanout,
                        lev,
                        st0,
                    ),
                decreases kids@.len() - i,
            {
                let ghost sofar = met + range_of(concat(fs.take(i as int)), s0, e0);
                let ghost kid = flat(t->kids[i as int]);
                proof {
                    if good {
                        lemma_kid_holds(payloads, t, order, max_fanout, lo, hi, i as int);
                        assert(id_views(kids@)[i as int] == kids@[i as int]@);
                        assert(fs.take(i + 1).drop_last() =~= fs.take(i as int));
                        lemma_range_split(concat(fs.take(i as int)), kid, s0, e0);
                        assert(met + range_of(concat(fs.take(i + 1)), s0, e0) =~= sofar + range_of(
                            kid,
                            s0,
                            e0,
                        ));
                        lemma_ordered_flat(
                            t->kids[i as int],
                            kid_lo(t->seps, lo, i as int),
                            kid_hi(t->seps, hi, i as int),
                        );
                    }
                }
                // A child wholly below the start or at or above the end has
                // nothing to show.
                let low = match start {
                    Some(s) => if i < seps.len() {
                        !lex_less(s, &seps[i])
                    } else {
                        false
                    },
                    None => false,
                };
                let high = match end {
                    Some(b) => if i > 0 {
                        !lex_less(&seps[i - 1], b)
                    } else {
                        false
                    },
                    None => false,
                };
                proof {
                    assert(kid_at(first_child@, es, i as int) == kids@[i as int]@) by {
                        assert(id_views(kids@)[i as int] == kids@[i as int]@);
                    }
                    assert((low || high) == passed_over(es, i as int, s0, e0)) by {
                        if i < seps@.len() {
                            assert(key_views(seps@)[i as int] == seps@[i as int]@);
                        }
                        if i > 0 {
                            assert(key_views(seps@)[i - 1] == seps@[i - 1]@);
                        }
                    }
                }
                let ghost walked = scanned_kids(
                    payloads,
                    first_child@,
                    es,
                    (i + 1) as nat,
                    (s0, e0),
                    max,
                    order,
                    max_fanout,
                    lev,
                    st0,
                );
                if low || high {
                    proof {
                        if good {
                            lemma_lex_order();
                            if low {
                                assert(key_views(seps@)[i as int] == seps@[i as int]@);
                            } else {
                                assert(key_views(seps@)[i - 1] == seps@[i - 1]@);
                            }
                            assert forall|j: int| 0 <= j < kid.len() implies !in_range(
                                s0,
                                e0,
                                (#[trigger] kid[j]).0,
                            ) by {
                            }
                            lemma_range_none(kid, s0, e0);
                            assert(sofar + range_of(kid, s0, e0) =~= sofar);
                        }
                    }
                } else {
                    match scan_rec(
                        kids[i],
                        start,
                        end,
                        limit,
                        order,
                        max_fanout,
                        provider,
                        depth + 1,
                        state,
                        Ghost(t->kids[i as int]),
                        Ghost(kid_lo(t->seps, lo, i as int)),
                        Ghost(kid_hi(t->seps, hi, i as int)),
                        Ghost(sofar),
                    ) {
                        Ok(_) => {},
                        Err(e) => {
                            proof {
                                if walked is Err {
                                    lemma_scan_stops(
                                        payloads,
                                        first_child@,
                                        es,
                                        (i + 1) as nat,
                                        kids@.len(),
                                        (s0, e0),
                                        max,
                                        order,
                                        max_fanout,
                                        lev,
                                        st0,
                                    );
                                }
                            }
                            return Err(e);
                        },
                    }
                }
                i += 1;
            }
            assert(good ==> fs.take(i as int) =~= fs);
            Ok(())
        },
    }
}

/// Full scan (no limit): every entry in key order.
pub fn scan_all<P: ObjectProvider>(
    root: ChunkId,
    order: u16,
    max_fanout: u32,
    provider: &P,
) -> (r: Result<Vec<EntryPair>, BTreeError>)
    ensures
        root@ == zero_id() ==> r is Ok,
        root@ != zero_id() && trusty(provider) ==> ({
            let s = walked_whole(provider.payloads(), root@, order, max_fanout);
            match r {
                Ok(o) => s matches Ok(x) && pair_views(o@) == x.0,
                Err(e) => provider.may_fail() || (s matches Err(f) && says(e, f)),
            }
        }),
        forall|h: nat, s: Seq<(Seq<u8>, Seq<u8>)>|
            s.len() <= usize::MAX && (trusty(provider) || root@ == zero_id())
                && #[trigger] lists(provider.payloads(), root@, order, max_fanout, h, s)
                ==> match r {
                Ok(o) => pair_views(o@) == s,
                Err(_) => provider.may_fail() || h > max_height(),
            },
{
    proof {
        assert forall|s: Seq<(Seq<u8>, Seq<u8>)>| #[trigger] range_of(s, None, None) == s by {
            lemma_range_all(s);
        }
    }
    match scan(root, None, None, usize::MAX, order, max_fanout, provider) {
        Ok((out, _, _)) => Ok(out),
        Err(e) => Err(e),
    }
}

/// Count entries.
pub fn count<P: ObjectProvider>(
    root: ChunkId,
    order: u16,
    max_fanout: u32,
    provider: &P,
) -> (r: Result<u64, BTreeError>)
    ensures
        root@ == zero_id() ==> r == Ok::<u64, BTreeError>(0),
        root@ != zero_id() && trusty(provider) ==> ({
            let s = walked_whole(provider.payloads(), root@, order, max_fanout);
            match r {
                Ok(n) => s matches Ok(x) && n == x.0.len(),
                Err(e) => provider.may_fail() || (s matches Err(f) && says(e, f)),
            }
        }),
        forall|h: nat, s: Seq<(Seq<u8>, Seq<u8>)>|
            s.len() <= usize::MAX && trusty(provider) && #[trigger] lists(
                provider.payloads(),
                root@,
                order,
                max_fanout,
                h,
                s,
            ) ==> match r {
                Ok(n) => n == s.len(),
                Err(_) => provider.may_fail() || h > max_height(),
            },
{
    proof {
        if root@ == zero_id() {
            assert(lists(provider.payloads(), root@, order, max_fanout, 0, Seq::empty()));
        }
    }
    match scan_all(root, order, max_fanout, provider) {
        Ok(entries) => {
            assert(pair_views(entries@).len() == entries@.len());
            Ok(entries.len() as u64)
        },
        Err(e) => Err(e),
    }
}

// ---------------------------------------------------------------------------
// Checking
// ---------------------------------------------------------------------------

/// Every node of the tree at `id` is present and decodes, and the tree is a search
/// tree: read in order its keys strictly increase, and every separator divides them.
pub open spec fn checks(
    payloads: Set<Seq<u8>>,
    id: Seq<u8>,
    t: Tree,
    order: u16,
    max_fanout: u32,
) -> bool {
    &&& id == tree_id(t, order)
    &&& stored(payloads, t, order)
    &&& sized(t, max_fanout)
    &&& ordered(t, None, None)
}

/// The key is at or above the lower bound and below the upper one; where `strict`,
/// above the lower one.
fn key_between(key: &[u8], lo: Option<&[u8]>, hi: Option<&[u8]>, strict: bool) -> (r: bool)
    ensures
        strict ==> r == inside(opt_slice(lo), opt_slice(hi), key@),
        !strict ==> r == covers(opt_slice(lo), opt_slice(hi), key@),
{
    proof {
        lemma_lex_order();
    }
    let above = match lo {
        Some(l) => if strict {
            lex_less(l, key)
        } else {
            !lex_less(key, l)
        },
        None => true,
    };
    let under = match hi {
        Some(u) => lex_less(key, u),
        None => true,
    };
    above && under
}

/// The keys of a leaf are between the bounds.
fn entries_between(entries: &Vec<Entry>, lo: Option<&[u8]>, hi: Option<&[u8]>) -> (r: bool)
    ensures
        r == within(pairs(entries@), opt_slice(lo), opt_slice(hi)),
{
    let ghost es = pairs(entries@);
    let mut i: usize = 0;
    while i < entries.len()
        invariant
            i <= entries@.len(),
            es == pairs(entries@),
            forall|j: int|
                0 <= j < i ==> covers(opt_slice(lo), opt_slice(hi), (#[trigger] es[j]).0),
        decreases entries@.len() - i,
    {
        assert(es[i as int] == (entries@[i as int].key@, entries@[i as int].value@));
        if !key_between(&entries[i].key, lo, hi, false) {
            assert(!covers(opt_slice(lo), opt_slice(hi), es[i as int].0));
            return false;
        }
        i += 1;
    }
    true
}

/// The separators are strictly between the bounds.
fn seps_between(seps: &Vec<Vec<u8>>, lo: Option<&[u8]>, hi: Option<&[u8]>) -> (r: bool)
    ensures
        r == seps_inside(key_views(seps@), opt_slice(lo), opt_slice(hi)),
{
    let ghost ks = key_views(seps@);
    let mut i: usize = 0;
    while i < seps.len()
        invariant
            i <= seps@.len(),
            ks == key_views(seps@),
            forall|j: int|
                0 <= j < i ==> inside(opt_slice(lo), opt_slice(hi), #[trigger] ks[j]),
        decreases seps@.len() - i,
    {
        assert(ks[i as int] == seps@[i as int]@);
        if !key_between(&seps[i], lo, hi, true) {
            assert(!inside(opt_slice(lo), opt_slice(hi), ks[i as int]));
            return false;
        }
        i += 1;
    }
    true
}

/// Verify tree invariants: keys strictly increasing, children present, no
/// cycles (depth-bounded). Returns the number of entries; more than a `u64`
/// counts is reported as a violation.
pub fn verify<P: ObjectProvider>(
    root: ChunkId,
    order: u16,
    max_fanout: u32,
    provider: &P,
) -> (r: Result<u64, BTreeError>)
    ensures
        root@ == zero_id() ==> r == Ok::<u64, BTreeError>(0),
        root@ != zero_id() && trusty(provider) ==> match r {
            Ok(n) => exists|t: Tree|
                #[trigger] checks(provider.payloads(), root@, t, order, max_fanout) && height(t)
                    <= max_height() && n == flat(t).len(),
            Err(_) => provider.may_fail() || !exists|t: Tree|
                #[trigger] checks(provider.payloads(), root@, t, order, max_fanout) && height(t)
                    <= max_height() && flat(t).len() <= u64::MAX,
        },
{
    if root.is_zero() {
        return Ok(0);
    }
    let ghost t = choose|t: Tree|
        #[trigger] checks(provider.payloads(), root@, t, order, max_fanout) && height(t)
            <= max_height() && flat(t).len() <= u64::MAX;
    match verify_rec(root, order, max_fanout, provider, 0, None, None, Ghost(t)) {
        Ok((n, w)) => {
            assert(trusty(provider) ==> checks(
                provider.payloads(),
                root@,
                w@,
                order,
                max_fanout,
            ));
            Ok(n)
        },
        Err(e) => Err(e),
    }
}

fn verify_rec<P: ObjectProvider>(
    node_id: ChunkId,
    order: u16,
    max_fanout: u32,
    provider: &P,
    depth: u32,
    lo: Option<&[u8]>,
    hi: Option<&[u8]>,
    Ghost(t): Ghost<Tree>,
) -> (r: Result<(u64, Ghost<Tree>), BTreeError>)
    requires
        depth <= 129,
    ensures
        trusty(provider) ==> match r {
            Ok((n, w)) => holds(
                provider.payloads(),
                node_id@,
                w@,
                order,
                max_fanout,
                opt_slice(lo),
                opt_slice(hi),
            ) && height(w@) + depth <= max_height() && n == flat(w@).len(),
            Err(_) => provider.may_fail() || !(holds(
                provider.payloads(),
                node_id@,
                t,
                order,
                max_fanout,
                opt_slice(lo),
                opt_slice(hi),
            ) && height(t) + depth <= max_height() && flat(t).len() <= u64::MAX),
        },
    decreases 129 - depth,
{
    let ghost payloads = provider.payloads();
    let ghost good = trusty(provider) && holds(
        payloads,
        node_id@,
        t,
        order,
        max_fanout,
        opt_slice(lo),
        opt_slice(hi),
    ) && height(t) + depth <= max_height() && flat(t).len() <= u64::MAX;
    if depth > 128 {
        return Err(BTreeError::Invariant("tree depth exceeded".to_string()));
    }
    proof {
        if good {
            lemma_ordered_keyed(t, opt_slice(lo), opt_slice(hi));
        }
    }
    let node = match fetch(node_id, order, max_fanout, provider, Ghost(t)) {
        Ok(n) => n,
        Err(e) => return Err(e),
    };
    match node {
        Node::Leaf { entries } => {
            if !entries_between(&entries, lo, hi) {
                return Err(BTreeError::Corrupt("keys out of order".to_string()));
            }
            let ghost w = Tree::Leaf { entries: pairs(entries@) };
            assert(tree_bytes(w, order) == node_bytes(node@, order));
            Ok((entries.len() as u64, Ghost(w)))
        },
        Node::Internal { first_child, entries } => {
            let (seps, kids) = branch_of(first_child, &entries);
            let ghost fs = flats(t->kids);
            let ghost ks = key_views(seps@);
            let ghost olo = opt_slice(lo);
            let ghost ohi = opt_slice(hi);
            proof {
                if good {
                    lemma_branch(key_views(seps@), id_views(kids@), t, order);
                    lemma_flat(t->seps, t->kids);
                    lemma_height_kids(t->seps, t->kids);
                    assert(concat(fs.take(0)) =~= Seq::empty());
                }
            }
            if !seps_between(&seps, lo, hi) {
                return Err(BTreeError::Corrupt("keys out of order".to_string()));
            }
            let mut total: u64 = 0;
            let ghost mut ws: Seq<Tree> = Seq::empty();
            assert(concat(flats(ws)) =~= Seq::empty());
            let mut i: usize = 0;
            while i < kids.len()
                invariant
                    i <= kids@.len(),
                    kids@.len() == seps@.len() + 1,
                    depth <= 128,
                    payloads == provider.payloads(),
                    ws.len() == i,
                    trusty(provider) ==> total == concat(flats(ws)).len(),
                    trusty(provider) ==> forall|j: int|
                        0 <= j < i ==> holds(
                            payloads,
                            kids@[j]@,
                            #[trigger] ws[j],
                            order,
                            max_fanout,
                            kid_lo(ks, olo, j),
                            kid_hi(ks, ohi, j),
                        ) && height(ws[j]) + depth + 1 <= max_height(),
                    good == (trusty(provider) && holds(
                        payloads,
                        node_id@,
                        t,
                        order,
                        max_fanout,
                        opt_slice(lo),
                        opt_slice(hi),
                    ) && height(t) + depth <= max_height() && flat(t).len() <= u64::MAX),
                    good ==> t is Internal && fs == flats(t->kids) && fs.len() == kids@.len(),
                    good ==> flat(t) == concat(fs),
                    ks == key_views(seps@),
                    olo == opt_slice(lo) && ohi == opt_slice(hi),
                    good ==> ks == t->seps,
                    good ==> id_views(kids@) == tree_ids(t->kids, order),
                    good ==> concat(flats(ws)) == concat(fs.take(i as int)),
                    good ==> forall|j: int|
                        0 <= j < t->kids.len() ==> height(#[trigger] t->kids[j]) < height(t),
                decreases kids@.len() - i,
            {
                let ghost kt = t->kids[i as int];
                proof {
                    if good {
                        assert(id_views(kids@)[i as int] == kids@[i as int]@);
                        assert(tree_ids(t->kids, order)[i as int] == tree_id(kt, order));
                        lemma_concat_at(fs, i as int);
                        assert(fs.take(i + 1).drop_last() =~= fs.take(i as int));
                        assert(fs[i as int] == flat(kt));
                    }
                }
                let below: Option<&[u8]> = if i == 0 {
                    lo
                } else {
                    Some(seps[i - 1].as_slice())
                };
                let above: Option<&[u8]> = if i < seps.len() {
                    Some(seps[i].as_slice())
                } else {
                    hi
                };
                assert(opt_slice(below) == kid_lo(ks, olo, i as int));
                assert(opt_slice(above) == kid_hi(ks, ohi, i as int));
                let (n, wg) = match verify_rec(
                    kids[i],
                    order,
                    max_fanout,
                    provider,
                    depth + 1,
                    below,
                    above,
                    Ghost(kt),
                ) {
                    Ok(v) => v,
                    Err(e) => return Err(e),
                };
                let ghost had = ws;
                let ghost w = wg@;
                proof {
                    if good {
                        lemma_sized_coded(w, max_fanout);
                        lemma_sized_coded(kt, max_fanout);
                        lemma_tree_unique(payloads, w, kt, order);
                    }
                    ws = ws.push(w);
                    assert(flats(ws).drop_last() =~= flats(had));
                    assert(flats(ws).last() == flat(w));
                    if good {
                        assert(concat(flats(ws)) == concat(fs.take(i + 1)));
                    }
                }
                total = match total.checked_add(n) {
                    Some(v) => v,
                    None => {
                        return Err(BTreeError::Invariant("entry count overflow".to_string()));
                    },
                };
                i += 1;
            }
            let ghost w = Tree::Internal { seps: key_views(seps@), kids: ws };
            proof {
                if trusty(provider) {
                    lemma_node_of(w, order);
                    assert(tree_ids(ws, order) =~= id_views(kids@)) by {
                        assert forall|j: int| 0 <= j < kids@.len() implies tree_ids(ws, order)[j]
                            == #[trigger] id_views(kids@)[j] by {
                            assert(holds(
                                payloads,
                                kids@[j]@,
                                ws[j],
                                order,
                                max_fanout,
                                kid_lo(ks, olo, j),
                                kid_hi(ks, ohi, j),
                            ));
                        }
                    }
                    assert(node_of(w, order) == node@);
                    lemma_flat(key_views(seps@), ws);
                    lemma_height_bound(key_views(seps@), ws, (max_height() - depth - 1) as nat);
                }
            }
            Ok((total, Ghost(w)))
        },
    }
}

/// Lexicographic comparison of two keys.
pub fn cmp_key(a: &[u8], b: &[u8]) -> (r: Ordering)
    ensures
        r == if lex_lt(a@, b@) {
            Ordering::Less
        } else if lex_lt(b@, a@) {
            Ordering::Greater
        } else {
            Ordering::Equal
        },
        (r == Ordering::Equal) == (a@ == b@),
{
    proof {
        lemma_lex_order();
        assert(lex_lt(a@, b@) || lex_lt(b@, a@) || a@ == b@);
    }
    if lex_less(a, b) {
        Ordering::Less
    } else if lex_less(b, a) {
        Ordering::Greater
    } else {
        Ordering::Equal
    }
}

} // verus!
