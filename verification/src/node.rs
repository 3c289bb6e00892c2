//! B-tree nodes and their payload format.
//!
//! A payload is the node kind, the order it was written with, the entry count,
//! and the entries: key and value of a leaf, separator and 32-byte child id of
//! an internal node, which stores its first child ahead of them.

use vstd::prelude::*;

use crate::bytes::{copy_bytes, lemma_lex_order, lex_less, lex_lt};
use crate::chunk::{digest, ChunkId};
use crate::codec::{bytes16, bytes32, lemma_scan_bytes16, lemma_scan_bytes32, lemma_scan_take,
    lemma_scan_u16, lemma_scan_u8, lemma_unscan_bytes16, lemma_unscan_bytes32, lemma_unscan_u16,
    lemma_unscan_u8, scan_bytes16, scan_bytes32, scan_check, scan_end, scan_take, scan_u16,
    scan_u8, u16_bytes, u8_bytes, CodecError, Reader, Scan, Writer};
use crate::sorted::sorted;

verus! {

/// Leaf node kind.
pub const NODE_LEAF: u8 = 0x01;

/// Internal node kind.
pub const NODE_INTERNAL: u8 = 0x02;

/// Default fanout (max entries per node).
pub const DEFAULT_ORDER: u16 = 64;

/// A B-tree entry.
#[derive(Debug, PartialEq, Eq)]
pub struct Entry {
    /// Key bytes.
    pub key: Vec<u8>,
    /// Value bytes (leaf) or child node id (internal).
    pub value: Vec<u8>,
}

/// A decoded node.
#[derive(Debug, PartialEq, Eq)]
pub enum Node {
    /// Leaf: entries only, in key order.
    Leaf { entries: Vec<Entry> },
    /// Internal: the first child covers the keys below the first separator,
    /// and every entry's child the keys from its separator on.
    Internal { first_child: ChunkId, entries: Vec<Entry> },
}

/// The contents of a node.
#[verifier::ext_equal]
pub enum NodeView {
    Leaf { entries: Seq<(Seq<u8>, Seq<u8>)> },
    Internal { first: Seq<u8>, entries: Seq<(Seq<u8>, Seq<u8>)> },
}

/// The key/value pairs of a run of entries.
pub open spec fn pairs(es: Seq<Entry>) -> Seq<(Seq<u8>, Seq<u8>)> {
    Seq::new(es.len(), |i: int| (es[i].key@, es[i].value@))
}

impl View for Node {
    type V = NodeView;

    open spec fn view(&self) -> NodeView {
        match self {
            Node::Leaf { entries } => NodeView::Leaf { entries: pairs(entries@) },
            Node::Internal { first_child, entries } => NodeView::Internal {
                first: first_child@,
                entries: pairs(entries@),
            },
        }
    }
}

// ---------------------------------------------------------------------------
// Format
// ---------------------------------------------------------------------------

/// The entries of a leaf, each key and value behind its length.
pub open spec fn leaf_body(es: Seq<(Seq<u8>, Seq<u8>)>) -> Seq<u8>
    decreases es.len(),
{
    if es.len() == 0 {
        Seq::empty()
    } else {
        leaf_body(es.drop_last()) + bytes16(es.last().0) + bytes32(es.last().1)
    }
}

/// The entries of an internal node: separator behind its length, child id.
pub open spec fn inner_body(es: Seq<(Seq<u8>, Seq<u8>)>) -> Seq<u8>
    decreases es.len(),
{
    if es.len() == 0 {
        Seq::empty()
    } else {
        inner_body(es.drop_last()) + bytes16(es.last().0) + es.last().1
    }
}

pub open spec fn node_header(kind: u8, order: u16, count: nat) -> Seq<u8> {
    u8_bytes(kind) + u16_bytes(order) + u16_bytes((count % 0x1_0000) as u16)
}

/// The payload of a node.
pub open spec fn node_bytes(n: NodeView, order: u16) -> Seq<u8> {
    match n {
        NodeView::Leaf { entries } => node_header(NODE_LEAF, order, entries.len()) + leaf_body(
            entries,
        ),
        NodeView::Internal { first, entries } => node_header(NODE_INTERNAL, order, entries.len())
            + first + inner_body(entries),
    }
}

/// Keys and values that fit the length prefixes of a leaf.
pub open spec fn leaf_encodable(es: Seq<(Seq<u8>, Seq<u8>)>) -> bool {
    forall|i: int|
        0 <= i < es.len() ==> (#[trigger] es[i]).0.len() <= u16::MAX && es[i].1.len() <= u32::MAX
}

/// Separators that fit their length prefix, and 32-byte child ids.
pub open spec fn inner_encodable(es: Seq<(Seq<u8>, Seq<u8>)>) -> bool {
    forall|i: int|
        0 <= i < es.len() ==> (#[trigger] es[i]).0.len() <= u16::MAX && es[i].1.len() == 32
}

/// What the length prefixes can hold.
pub open spec fn encodable(n: NodeView) -> bool {
    match n {
        NodeView::Leaf { entries } => leaf_encodable(entries),
        NodeView::Internal { first, entries } => first.len() == 32 && inner_encodable(entries),
    }
}

pub open spec fn node_entries(n: NodeView) -> Seq<(Seq<u8>, Seq<u8>)> {
    match n {
        NodeView::Leaf { entries } => entries,
        NodeView::Internal { entries, .. } => entries,
    }
}

/// A node that reads back: keys strictly increase, and the count is within the
/// reader's fanout limit and its two-byte field.
pub open spec fn node_ok(n: NodeView, max_fanout: u32) -> bool {
    &&& encodable(n)
    &&& sorted(node_entries(n))
    &&& node_entries(n).len() <= max_fanout
    &&& node_entries(n).len() <= u16::MAX
}

pub open spec fn parse_leaf(st: Scan, n: nat) -> (Seq<(Seq<u8>, Seq<u8>)>, Scan)
    decreases n,
{
    if n == 0 {
        (Seq::empty(), st)
    } else {
        let (es, st1) = parse_leaf(st, (n - 1) as nat);
        let (k, st2) = scan_bytes16(st1);
        let (v, st3) = scan_bytes32(st2);
        (es.push((k, v)), st3)
    }
}

pub open spec fn parse_inner(st: Scan, n: nat) -> (Seq<(Seq<u8>, Seq<u8>)>, Scan)
    decreases n,
{
    if n == 0 {
        (Seq::empty(), st)
    } else {
        let (es, st1) = parse_inner(st, (n - 1) as nat);
        let (k, st2) = scan_bytes16(st1);
        let (v, st3) = scan_take(st2, 32);
        (es.push((k, v)), st3)
    }
}

/// Kind and entry count, and the input behind them.
pub open spec fn parse_header(bytes: Seq<u8>, order: u16, max_fanout: u32) -> (u8, u16, Scan) {
    let (kind, st) = scan_u8(Ok(bytes));
    let (written_order, st) = scan_u16(st);
    let st = scan_check(st, written_order == order, CodecError::Malformed);
    let (count, st) = scan_u16(st);
    let st = scan_check(st, count <= max_fanout, CodecError::TooLong);
    let st = scan_check(
        st,
        kind == NODE_LEAF || kind == NODE_INTERNAL,
        CodecError::Malformed,
    );
    (kind, count, st)
}

/// The node behind a payload, or why there is none.
pub open spec fn parse_node(bytes: Seq<u8>, order: u16, max_fanout: u32) -> Result<
    NodeView,
    CodecError,
> {
    let (kind, count, st) = parse_header(bytes, order, max_fanout);
    if kind == NODE_LEAF {
        let (entries, st) = parse_leaf(st, count as nat);
        let st = scan_check(st, sorted(entries), CodecError::Malformed);
        match scan_end(st) {
            Err(e) => Err(e),
            Ok(_) => Ok(NodeView::Leaf { entries }),
        }
    } else {
        let (first, st) = scan_take(st, 32);
        let (entries, st) = parse_inner(st, count as nat);
        let st = scan_check(st, sorted(entries), CodecError::Malformed);
        match scan_end(st) {
            Err(e) => Err(e),
            Ok(_) => Ok(NodeView::Internal { first, entries }),
        }
    }
}

proof fn lemma_parse_leaf_err(e: CodecError, n: nat)
    ensures
        parse_leaf(Err(e), n).1 == Err::<Seq<u8>, CodecError>(e),
    decreases n,
{
    if n > 0 {
        lemma_parse_leaf_err(e, (n - 1) as nat);
    }
}

proof fn lemma_parse_inner_err(e: CodecError, n: nat)
    ensures
        parse_inner(Err(e), n).1 == Err::<Seq<u8>, CodecError>(e),
    decreases n,
{
    if n > 0 {
        lemma_parse_inner_err(e, (n - 1) as nat);
    }
}

/// Once a prefix of the entries fails to parse, so do more of them.
proof fn lemma_parse_leaf_stuck(st: Scan, i: nat, n: nat)
    requires
        i <= n,
        parse_leaf(st, i).1 is Err,
    ensures
        parse_leaf(st, n).1 == parse_leaf(st, i).1,
    decreases n,
{
    if i < n {
        lemma_parse_leaf_stuck(st, i, (n - 1) as nat);
    }
}

proof fn lemma_parse_inner_stuck(st: Scan, i: nat, n: nat)
    requires
        i <= n,
        parse_inner(st, i).1 is Err,
    ensures
        parse_inner(st, n).1 == parse_inner(st, i).1,
    decreases n,
{
    if i < n {
        lemma_parse_inner_stuck(st, i, (n - 1) as nat);
    }
}

proof fn lemma_parse_leaf_body(es: Seq<(Seq<u8>, Seq<u8>)>, rest: Seq<u8>)
    requires
        leaf_encodable(es),
    ensures
        parse_leaf(Ok(leaf_body(es) + rest), es.len()) == (es, Ok::<Seq<u8>, CodecError>(rest)),
    decreases es.len(),
{
    if es.len() == 0 {
        assert(leaf_body(es) + rest =~= rest);
        assert(es =~= Seq::empty());
    } else {
        let p = es.drop_last();
        let (k, v) = es[es.len() - 1];
        assert forall|i: int| 0 <= i < p.len() implies (#[trigger] p[i]).0.len() <= u16::MAX
            && p[i].1.len() <= u32::MAX by {
            assert(p[i] == es[i]);
        }
        lemma_parse_leaf_body(p, bytes16(k) + (bytes32(v) + rest));
        assert(leaf_body(es) + rest =~= leaf_body(p) + (bytes16(k) + (bytes32(v) + rest)));
        lemma_scan_bytes16(k, bytes32(v) + rest);
        lemma_scan_bytes32(v, rest);
        assert(p.push((k, v)) =~= es);
    }
}

proof fn lemma_parse_inner_body(es: Seq<(Seq<u8>, Seq<u8>)>, rest: Seq<u8>)
    requires
        inner_encodable(es),
    ensures
        parse_inner(Ok(inner_body(es) + rest), es.len()) == (es, Ok::<Seq<u8>, CodecError>(rest)),
    decreases es.len(),
{
    if es.len() == 0 {
        assert(inner_body(es) + rest =~= rest);
        assert(es =~= Seq::empty());
    } else {
        let p = es.drop_last();
        let (k, v) = es[es.len() - 1];
        assert forall|i: int| 0 <= i < p.len() implies (#[trigger] p[i]).0.len() <= u16::MAX
            && p[i].1.len() == 32 by {
            assert(p[i] == es[i]);
        }
        lemma_parse_inner_body(p, bytes16(k) + (v + rest));
        assert(inner_body(es) + rest =~= inner_body(p) + (bytes16(k) + (v + rest)));
        lemma_scan_bytes16(k, v + rest);
        lemma_scan_take(v, rest);
        assert(p.push((k, v)) =~= es);
    }
}

proof fn lemma_unparse_leaf(s: Seq<u8>, n: nat)
    requires
        parse_leaf(Ok(s), n).1 is Ok,
    ensures
        parse_leaf(Ok(s), n).0.len() == n,
        leaf_encodable(parse_leaf(Ok(s), n).0),
        s == leaf_body(parse_leaf(Ok(s), n).0) + parse_leaf(Ok(s), n).1->Ok_0,
    decreases n,
{
    if n == 0 {
        assert(s =~= leaf_body(Seq::empty()) + s);
    } else {
        let m = (n - 1) as nat;
        lemma_unparse_leaf(s, m);
        let (es, st1) = parse_leaf(Ok(s), m);
        let s1 = st1->Ok_0;
        lemma_unscan_bytes16(s1);
        let (k, st2) = scan_bytes16(st1);
        let s2 = st2->Ok_0;
        lemma_unscan_bytes32(s2);
        let (v, st3) = scan_bytes32(st2);
        let more = es.push((k, v));
        assert(more.drop_last() =~= es);
        assert(leaf_body(more) == leaf_body(es) + bytes16(k) + bytes32(v));
        assert(s =~= leaf_body(more) + st3->Ok_0);
    }
}

proof fn lemma_unparse_inner(s: Seq<u8>, n: nat)
    requires
        parse_inner(Ok(s), n).1 is Ok,
    ensures
        parse_inner(Ok(s), n).0.len() == n,
        inner_encodable(parse_inner(Ok(s), n).0),
        s == inner_body(parse_inner(Ok(s), n).0) + parse_inner(Ok(s), n).1->Ok_0,
    decreases n,
{
    if n == 0 {
        assert(s =~= inner_body(Seq::empty()) + s);
    } else {
        let m = (n - 1) as nat;
        lemma_unparse_inner(s, m);
        let (es, st1) = parse_inner(Ok(s), m);
        let s1 = st1->Ok_0;
        lemma_unscan_bytes16(s1);
        let (k, st2) = scan_bytes16(st1);
        let s2 = st2->Ok_0;
        let (v, st3) = scan_take(st2, 32);
        assert(s2 =~= v + st3->Ok_0);
        let more = es.push((k, v));
        assert(more.drop_last() =~= es);
        assert(inner_body(more) == inner_body(es) + bytes16(k) + v);
        assert(s =~= inner_body(more) + st3->Ok_0);
    }
}

proof fn lemma_header_round_trip(kind: u8, order: u16, count: u16, max_fanout: u32, rest: Seq<u8>)
    requires
        kind == NODE_LEAF || kind == NODE_INTERNAL,
        count <= max_fanout,
    ensures
        parse_header(node_header(kind, order, count as nat) + rest, order, max_fanout) == (
            kind,
            count,
            Ok::<Seq<u8>, CodecError>(rest),
        ),
{
    let s2 = u16_bytes(count) + rest;
    let s1 = u16_bytes(order) + s2;
    let s0 = u8_bytes(kind) + s1;
    assert(node_header(kind, order, count as nat) + rest =~= s0);
    lemma_scan_u8(kind, s1);
    lemma_scan_u16(order, s2);
    lemma_scan_u16(count, rest);
}

/// Decoding the payload of a readable node gives the node back.
pub proof fn node_round_trip(n: NodeView, order: u16, max_fanout: u32)
    requires
        node_ok(n, max_fanout),
    ensures
        parse_node(node_bytes(n, order), order, max_fanout) == Ok::<NodeView, CodecError>(n),
{
    let count = node_entries(n).len() as u16;
    match n {
        NodeView::Leaf { entries } => {
            let body = leaf_body(entries);
            lemma_parse_leaf_body(entries, Seq::empty());
            assert(body + Seq::<u8>::empty() =~= body);
            lemma_header_round_trip(NODE_LEAF, order, count, max_fanout, body);
        },
        NodeView::Internal { first, entries } => {
            let body = inner_body(entries);
            lemma_parse_inner_body(entries, Seq::empty());
            assert(body + Seq::<u8>::empty() =~= body);
            assert(node_bytes(n, order) =~= node_header(NODE_INTERNAL, order, count as nat) + (
            first + body));
            lemma_header_round_trip(NODE_INTERNAL, order, count, max_fanout, first + body);
            lemma_scan_take(first, body);
        },
    }
}

proof fn lemma_parse_header(bytes: Seq<u8>, order: u16, max_fanout: u32)
    requires
        parse_header(bytes, order, max_fanout).2 is Ok,
    ensures
        ({
            let (kind, count, st) = parse_header(bytes, order, max_fanout);
            &&& kind == NODE_LEAF || kind == NODE_INTERNAL
            &&& count <= max_fanout
            &&& bytes == node_header(kind, order, count as nat) + st->Ok_0
        }),
{
    lemma_unscan_u8(bytes);
    let s1 = scan_u8(Ok(bytes)).1->Ok_0;
    lemma_unscan_u16(s1);
    let s2 = scan_u16(Ok(s1)).1->Ok_0;
    lemma_unscan_u16(s2);
    let (kind, count, st) = parse_header(bytes, order, max_fanout);
    assert(bytes =~= node_header(kind, order, count as nat) + st->Ok_0);
}

/// A payload that decodes is the encoding of what it decodes to.
pub proof fn node_canonical(bytes: Seq<u8>, order: u16, max_fanout: u32)
    requires
        parse_node(bytes, order, max_fanout) is Ok,
    ensures
        node_ok(parse_node(bytes, order, max_fanout)->Ok_0, max_fanout),
        node_bytes(parse_node(bytes, order, max_fanout)->Ok_0, order) == bytes,
{
    let n = parse_node(bytes, order, max_fanout)->Ok_0;
    let (kind, count, st) = parse_header(bytes, order, max_fanout);
    if st is Err {
        lemma_parse_all_err(st->Err_0);
    }
    lemma_parse_header(bytes, order, max_fanout);
    let s3 = st->Ok_0;
    if kind == NODE_LEAF {
        let (entries, st4) = parse_leaf(st, count as nat);
        assert(st4 is Ok);
        lemma_unparse_leaf(s3, count as nat);
        assert(s3 =~= leaf_body(entries));
        assert(node_bytes(n, order) =~= bytes);
    } else {
        let (first, st4) = scan_take(st, 32);
        if st4 is Err {
            lemma_parse_all_err(st4->Err_0);
        }
        let s4 = st4->Ok_0;
        let (entries, st5) = parse_inner(st4, count as nat);
        assert(st5 is Ok);
        assert(s3 =~= first + s4);
        lemma_unparse_inner(s4, count as nat);
        assert(s4 =~= inner_body(entries));
        assert(node_bytes(n, order) =~= bytes);
    }
}

proof fn lemma_leaf_body_injective(a: Seq<(Seq<u8>, Seq<u8>)>, b: Seq<(Seq<u8>, Seq<u8>)>)
    requires
        leaf_encodable(a),
        leaf_encodable(b),
        leaf_body(a) == leaf_body(b),
        a.len() <= b.len(),
    ensures
        a == b,
{
    let none = Seq::<u8>::empty();
    let st: Scan = Ok(leaf_body(a));
    lemma_parse_leaf_body(a, none);
    lemma_parse_leaf_body(b, none);
    assert(leaf_body(a) + none =~= leaf_body(a));
    assert(leaf_body(b) + none =~= leaf_body(b));
    if a.len() < b.len() {
        let next = parse_leaf(st, a.len() + 1);
        assert(next.1 is Err);
        lemma_parse_leaf_stuck(st, a.len() + 1, b.len());
    }
}

proof fn lemma_inner_body_injective(a: Seq<(Seq<u8>, Seq<u8>)>, b: Seq<(Seq<u8>, Seq<u8>)>)
    requires
        inner_encodable(a),
        inner_encodable(b),
        inner_body(a) == inner_body(b),
        a.len() <= b.len(),
    ensures
        a == b,
{
    let none = Seq::<u8>::empty();
    let st: Scan = Ok(inner_body(a));
    lemma_parse_inner_body(a, none);
    lemma_parse_inner_body(b, none);
    assert(inner_body(a) + none =~= inner_body(a));
    assert(inner_body(b) + none =~= inner_body(b));
    if a.len() < b.len() {
        let next = parse_inner(st, a.len() + 1);
        assert(next.1 is Err);
        lemma_parse_inner_stuck(st, a.len() + 1, b.len());
    }
}

/// Two nodes with one payload are the same node.
pub proof fn node_bytes_injective(a: NodeView, b: NodeView, order: u16)
    requires
        encodable(a),
        encodable(b),
        node_bytes(a, order) == node_bytes(b, order),
    ensures
        a == b,
{
    let x = node_bytes(a, order);
    let y = node_bytes(b, order);
    lemma_header_len(NODE_LEAF, order, node_entries(a).len());
    lemma_header_len(NODE_LEAF, order, node_entries(b).len());
    lemma_header_len(NODE_INTERNAL, order, node_entries(a).len());
    lemma_header_len(NODE_INTERNAL, order, node_entries(b).len());
    match (a, b) {
        (NodeView::Leaf { entries: e1 }, NodeView::Leaf { entries: e2 }) => {
            assert(x.skip(5) =~= leaf_body(e1));
            assert(y.skip(5) =~= leaf_body(e2));
            if e1.len() <= e2.len() {
                lemma_leaf_body_injective(e1, e2);
            } else {
                lemma_leaf_body_injective(e2, e1);
            }
        },
        (
            NodeView::Internal { first: f1, entries: e1 },
            NodeView::Internal { first: f2, entries: e2 },
        ) => {
            assert(x.subrange(5, 37) =~= f1);
            assert(y.subrange(5, 37) =~= f2);
            assert(x.skip(37) =~= inner_body(e1));
            assert(y.skip(37) =~= inner_body(e2));
            if e1.len() <= e2.len() {
                lemma_inner_body_injective(e1, e2);
            } else {
                lemma_inner_body_injective(e2, e1);
            }
        },
        (NodeView::Leaf { entries: e1 }, NodeView::Internal { first: f2, entries: e2 }) => {
            assert(x[0] == NODE_LEAF && y[0] == NODE_INTERNAL);
        },
        (NodeView::Internal { first: f1, entries: e1 }, NodeView::Leaf { entries: e2 }) => {
            assert(x[0] == NODE_INTERNAL && y[0] == NODE_LEAF);
        },
    }
}

proof fn lemma_header_len(kind: u8, order: u16, count: nat)
    ensures
        node_header(kind, order, count).len() == 5,
        node_header(kind, order, count)[0] == kind,
{
    lemma_scan_u8(kind, Seq::empty());
    lemma_scan_u16(order, Seq::empty());
    lemma_scan_u16((count % 0x1_0000) as u16, Seq::empty());
    reveal_with_fuel(crate::bytes::le_bytes, 2);
    assert(u8_bytes(kind)[0] == kind);
}

// ---------------------------------------------------------------------------
// Entries
// ---------------------------------------------------------------------------

impl Entry {
    pub fn copy(&self) -> (r: Entry)
        ensures
            r.key@ == self.key@,
            r.value@ == self.value@,
    {
        Entry { key: copy_bytes(&self.key), value: copy_bytes(&self.value) }
    }
}

/// A copy of `es[from..to]`.
pub fn copy_entries(es: &Vec<Entry>, from: usize, to: usize) -> (r: Vec<Entry>)
    requires
        from <= to <= es@.len(),
    ensures
        pairs(r@) == pairs(es@).subrange(from as int, to as int),
        r@.len() == to - from,
{
    let mut out: Vec<Entry> = Vec::with_capacity(to - from);
    let mut i: usize = from;
    while i < to
        invariant
            from <= i <= to <= es@.len(),
            out@.len() == i - from,
            pairs(out@) == pairs(es@).subrange(from as int, i as int),
        decreases to - i,
    {
        let ghost had = out@;
        out.push(es[i].copy());
        proof {
            assert(pairs(out@) =~= pairs(had).push((es@[i as int].key@, es@[i as int].value@)));
            assert(pairs(es@).subrange(from as int, i + 1) =~= pairs(es@).subrange(
                from as int,
                i as int,
            ).push(pairs(es@)[i as int]));
        }
        i += 1;
    }
    out
}

/// Whether the keys strictly increase.
fn keys_increase(es: &Vec<Entry>) -> (r: bool)
    ensures
        r == sorted(pairs(es@)),
{
    let mut i: usize = 1;
    while i < es.len()
        invariant
            1 <= i,
            i <= es@.len() || es@.len() == 0,
            es@.len() > 0 ==> sorted(pairs(es@).take(i as int)),
        decreases es@.len() - i,
    {
        let ghost s = pairs(es@);
        assert(s[i - 1] == (es@[i - 1].key@, es@[i - 1].value@));
        assert(s[i as int] == (es@[i as int].key@, es@[i as int].value@));
        if !lex_less(&es[i - 1].key, &es[i].key) {
            return false;
        }
        proof {
            lemma_lex_order();
            let t = s.take(i + 1);
            let p = s.take(i as int);
            assert forall|a: int, b: int| #![trigger t[a], t[b]]
                0 <= a < b < t.len() implies lex_lt(t[a].0, t[b].0) by {
                assert(t[a] == p[a]);
                if b < i {
                    assert(t[b] == p[b]);
                } else if a < i - 1 {
                    assert(p[i - 1] == s[i - 1]);
                }
            }
        }
        i += 1;
    }
    proof {
        if es@.len() > 0 {
            assert(pairs(es@).take(i as int) =~= pairs(es@));
        }
    }
    true
}

impl Node {
    /// Node kind tag.
    pub fn kind_tag(&self) -> (r: u8)
        ensures
            r == if self is Leaf {
                NODE_LEAF
            } else {
                NODE_INTERNAL
            },
    {
        match self {
            Node::Leaf { .. } => NODE_LEAF,
            Node::Internal { .. } => NODE_INTERNAL,
        }
    }

    /// Entry count.
    pub fn len(&self) -> (r: usize)
        ensures
            r == node_entries(self@).len(),
    {
        match self {
            Node::Leaf { entries } => entries.len(),
            Node::Internal { entries, .. } => entries.len(),
        }
    }

    /// Whether the node has no entry.
    pub fn is_empty(&self) -> (r: bool)
        ensures
            r == (node_entries(self@).len() == 0),
    {
        self.len() == 0
    }

    /// Encode to payload bytes.
    pub fn encode(&self, order: u16) -> (r: Vec<u8>)
        requires
            encodable(self@),
        ensures
            r@ == node_bytes(self@, order),
    {
        let mut w = Writer::new();
        w.u8(self.kind_tag());
        w.u16(order);
        w.u16((self.len() % 0x1_0000) as u16);
        let ghost head = w@;
        assert(head =~= node_header(
            if self is Leaf {
                NODE_LEAF
            } else {
                NODE_INTERNAL
            },
            order,
            node_entries(self@).len(),
        ));
        match self {
            Node::Leaf { entries } => {
                let ghost all = pairs(entries@);
                let mut i: usize = 0;
                assert(head + leaf_body(all.take(0)) =~= head);
                while i < entries.len()
                    invariant
                        i <= entries@.len(),
                        all == pairs(entries@),
                        leaf_encodable(all),
                        w@ == head + leaf_body(all.take(i as int)),
                    decreases entries@.len() - i,
                {
                    let e = &entries[i];
                    assert(all[i as int] == (e.key@, e.value@));
                    let _ = w.bytes16(&e.key);
                    let _ = w.bytes32(&e.value);
                    proof {
                        assert(all.take(i + 1).drop_last() =~= all.take(i as int));
                        assert(w@ =~= head + leaf_body(all.take(i + 1)));
                    }
                    i += 1;
                }
                assert(all.take(i as int) =~= all);
            },
            Node::Internal { first_child, entries } => {
                let ghost all = pairs(entries@);
                w.bytes(first_child.as_slice());
                let ghost head2 = w@;
                let mut i: usize = 0;
                assert(head2 + inner_body(all.take(0)) =~= head2);
                while i < entries.len()
                    invariant
                        i <= entries@.len(),
                        all == pairs(entries@),
                        inner_encodable(all),
                        w@ == head2 + inner_body(all.take(i as int)),
                    decreases entries@.len() - i,
                {
                    let e = &entries[i];
                    assert(all[i as int] == (e.key@, e.value@));
                    let _ = w.bytes16(&e.key);
                    w.bytes(&e.value);
                    proof {
                        assert(all.take(i + 1).drop_last() =~= all.take(i as int));
                        assert(w@ =~= head2 + inner_body(all.take(i + 1)));
                    }
                    i += 1;
                }
                assert(all.take(i as int) =~= all);
            },
        }
        w.into_bytes()
    }

    /// Decode a node payload. `expected_order` must match the order the node
    /// was encoded with: a mismatch means that an inconsistent tree
    /// configuration wrote it, and it is treated as corrupt.
    pub fn decode(bytes: &[u8], expected_order: u16, max_fanout: u32) -> (r: Result<
        Node,
        CodecError,
    >)
        ensures
            match r {
                Ok(n) => parse_node(bytes@, expected_order, max_fanout) == Ok::<
                    NodeView,
                    CodecError,
                >(n@) && node_ok(n@, max_fanout),
                Err(e) => parse_node(bytes@, expected_order, max_fanout) == Err::<
                    NodeView,
                    CodecError,
                >(e),
            },
    {
        let mut r = Reader::new(bytes);
        let kind: u8 = match r.u8() {
            Ok(v) => v,
            Err(e) => {
                proof {
                    lemma_parse_all_err(e);
                }
                return Err(e);
            },
        };
        let encoded_order: u16 = match r.u16() {
            Ok(v) => v,
            Err(e) => {
                proof {
                    lemma_parse_all_err(e);
                }
                return Err(e);
            },
        };
        if encoded_order != expected_order {
            proof {
                lemma_parse_all_err(CodecError::Malformed);
            }
            return Err(CodecError::Malformed);
        }
        let count: usize = match r.u16() {
            Ok(v) => v as usize,
            Err(e) => {
                proof {
                    lemma_parse_all_err(e);
                }
                return Err(e);
            },
        };
        if count as u64 > max_fanout as u64 {
            proof {
                lemma_parse_all_err(CodecError::TooLong);
            }
            return Err(CodecError::TooLong);
        }
        if kind == NODE_LEAF {
            let ghost start: Scan = Ok(r@);
            let entries = match Node::read_leaf(&mut r, count) {
                Ok(v) => v,
                Err(e) => return Err(e),
            };
            if !keys_increase(&entries) {
                return Err(CodecError::Malformed);
            }
            if !r.done() {
                return Err(CodecError::Malformed);
            }
            let n = Node::Leaf { entries };
            proof {
                node_canonical(bytes@, expected_order, max_fanout);
            }
            Ok(n)
        } else if kind == NODE_INTERNAL {
            let first_child = match r.take(32) {
                Ok(b) => ChunkId::from_slice(b),
                Err(e) => {
                    proof {
                        lemma_parse_all_err(e);
                    }
                    return Err(e);
                },
            };
            let entries = match Node::read_inner(&mut r, count) {
                Ok(v) => v,
                Err(e) => return Err(e),
            };
            if !keys_increase(&entries) {
                return Err(CodecError::Malformed);
            }
            if !r.done() {
                return Err(CodecError::Malformed);
            }
            let n = Node::Internal { first_child, entries };
            proof {
                node_canonical(bytes@, expected_order, max_fanout);
            }
            Ok(n)
        } else {
            proof {
                lemma_parse_all_err(CodecError::Malformed);
            }
            Err(CodecError::Malformed)
        }
    }

    fn read_leaf(r: &mut Reader<'_>, count: usize) -> (out: Result<Vec<Entry>, CodecError>)
        ensures
            match out {
                Ok(es) => parse_leaf(Ok(old(r)@), count as nat) == (pairs(es@), Ok::<
                    Seq<u8>,
                    CodecError,
                >(final(r)@)),
                Err(e) => parse_leaf(Ok(old(r)@), count as nat).1 == Err::<Seq<u8>, CodecError>(e),
            },
    {
        let ghost start: Scan = Ok(r@);
        let mut entries: Vec<Entry> = Vec::with_capacity(count);
        let mut i: usize = 0;
        assert(pairs(entries@) =~= Seq::empty());
        while i < count
            invariant
                i <= count,
                entries@.len() == i,
                start == Ok::<Seq<u8>, CodecError>(old(r)@),
                parse_leaf(start, i as nat) == (pairs(entries@), Ok::<Seq<u8>, CodecError>(r@)),
            decreases count - i,
        {
            let ghost had = pairs(entries@);
            let key = match r.bytes16() {
                Ok(b) => b,
                Err(e) => {
                    proof {
                        lemma_parse_leaf_stuck(start, (i + 1) as nat, count as nat);
                    }
                    return Err(e);
                },
            };
            let value = match r.bytes32() {
                Ok(b) => b,
                Err(e) => {
                    proof {
                        lemma_parse_leaf_stuck(start, (i + 1) as nat, count as nat);
                    }
                    return Err(e);
                },
            };
            entries.push(Entry { key: copy_bytes(key), value: copy_bytes(value) });
            proof {
                assert(pairs(entries@) =~= had.push((key@, value@)));
            }
            i += 1;
        }
        Ok(entries)
    }

    fn read_inner(r: &mut Reader<'_>, count: usize) -> (out: Result<Vec<Entry>, CodecError>)
        ensures
            match out {
                Ok(es) => parse_inner(Ok(old(r)@), count as nat) == (pairs(es@), Ok::<
                    Seq<u8>,
                    CodecError,
                >(final(r)@)),
                Err(e) => parse_inner(Ok(old(r)@), count as nat).1 == Err::<Seq<u8>, CodecError>(
                    e,
                ),
            },
    {
        let ghost start: Scan = Ok(r@);
        let mut entries: Vec<Entry> = Vec::with_capacity(count);
        let mut i: usize = 0;
        assert(pairs(entries@) =~= Seq::empty());
        while i < count
            invariant
                i <= count,
                entries@.len() == i,
                start == Ok::<Seq<u8>, CodecError>(old(r)@),
                parse_inner(start, i as nat) == (pairs(entries@), Ok::<Seq<u8>, CodecError>(r@)),
            decreases count - i,
        {
            let ghost had = pairs(entries@);
            let key = match r.bytes16() {
                Ok(b) => b,
                Err(e) => {
                    proof {
                        lemma_parse_inner_stuck(start, (i + 1) as nat, count as nat);
                    }
                    return Err(e);
                },
            };
            let value = match r.take(32) {
                Ok(b) => b,
                Err(e) => {
                    proof {
                        lemma_parse_inner_stuck(start, (i + 1) as nat, count as nat);
                    }
                    return Err(e);
                },
            };
            entries.push(Entry { key: copy_bytes(key), value: copy_bytes(value) });
            proof {
                assert(pairs(entries@) =~= had.push((key@, value@)));
            }
            i += 1;
        }
        Ok(entries)
    }

    /// Content id of the node.
    pub fn id(&self, order: u16) -> (r: ChunkId)
        requires
            encodable(self@),
        ensures
            r@ == digest(node_bytes(self@, order)),
    {
        ChunkId::of(&self.encode(order))
    }
}

proof fn lemma_parse_all_err(e: CodecError)
    ensures
        forall|n: nat| (#[trigger] parse_leaf(Err(e), n)).1 == Err::<Seq<u8>, CodecError>(e),
        forall|n: nat| (#[trigger] parse_inner(Err(e), n)).1 == Err::<Seq<u8>, CodecError>(e),
{
    assert forall|n: nat| (#[trigger] parse_leaf(Err(e), n)).1 == Err::<Seq<u8>, CodecError>(
        e,
    ) by {
        lemma_parse_leaf_err(e, n);
    }
    assert forall|n: nat| (#[trigger] parse_inner(Err(e), n)).1 == Err::<Seq<u8>, CodecError>(
        e,
    ) by {
        lemma_parse_inner_err(e, n);
    }
}

} // verus!
