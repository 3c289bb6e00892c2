//! What an acknowledged operation leaves behind: the log above the root, replayed over the
//! committed trees, shows what the epoch shows. So a store that is mounted from what another
//! has flushed, and that replays the log, shows every operation that was acknowledged.

use vstd::prelude::*;

use crate::chunk::digest;
use crate::descriptor::Descriptor;
use crate::epoch::mapped;
use crate::epoch_laws::mirrors;
use crate::epoch_ops::{logged, numbered, records_cover, recorded_in, staged};
use crate::fs::{lemma_fs_grows, lemma_tree_grows, Namespace};
use crate::index_edit::lemma_clash_free_subset;
use crate::io::IoBackend;
use crate::journal::log_appended;
use crate::log::{envelope_bytes, op_ok, OpView};
use crate::place::{lemma_down_on_record, on_record, view_lens, views_of};
use crate::record::{record_of, RecordView};
use crate::replay::{all_applicable, all_decode, applicable, applied, chunk_index_with,
    lemma_resolved_grows, op_chunks, replayed, replayed_chunks, resolved, resolves, seq_of};
use crate::store::{lemma_given, Store};
use crate::transaction::PendingRecord;
use crate::tree::clash_free;
use crate::version::RecordTag;

verus! {

// ---------------------------------------------------------------------------
// The log on record
// ---------------------------------------------------------------------------

/// The record of an operation.
pub open spec fn log_record(seq: u64, op: OpView) -> RecordView {
    record_of(RecordTag::MutationLog, 0, None, envelope_bytes(seq, op))
}

/// The record is of the log at or below `floor`, or one of these.
pub open spec fn listed_in(v: RecordView, floor: u64, log: Seq<(u64, OpView)>) -> bool {
    ||| seq_of(v.payload) matches Some(n) && n <= floor
    ||| exists|i: int| 0 <= i < log.len() && v.payload == envelope_bytes((#[trigger] log[i]).0, log[i].1)
}

/// The log above `floor` that lies in the segments, in the order of its numbers.
pub open spec fn is_log(
    laid: Map<u64, Seq<RecordView>>,
    floor: u64,
    log: Seq<(u64, OpView)>,
) -> bool {
    &&& forall|i: int, j: int|
        #![trigger log[i], log[j]]
        0 <= i < j < log.len() ==> log[i].0 < log[j].0
    &&& forall|i: int|
        0 <= i < log.len() ==> (#[trigger] log[i]).0 > floor && op_ok(log[i].1) && on_record(
            laid,
            log_record(log[i].0, log[i].1),
        )
    &&& forall|v: RecordView| #[trigger]
        on_record(laid, v) && v.tag == RecordTag::MutationLog ==> listed_in(v, floor, log)
}

/// The operations of a log.
pub open spec fn ops_of(log: Seq<(u64, OpView)>) -> Seq<OpView> {
    Seq::new(log.len(), |i: int| log[i].1)
}

// ---------------------------------------------------------------------------
// The log mirrors the overlay
// ---------------------------------------------------------------------------

/// Every object that the epoch has staged is stored.
pub open spec fn staged_held<B: IoBackend>(a: Store<B>) -> bool {
    forall|id: Seq<u8>| #[trigger]
        staged(a.epoch, id) ==> exists|x: Seq<u8>| #[trigger]
            a.objects().contains(x) && digest(x) == id
}

/// `log` is what lies above the root, and replaying it over the committed namespace and
/// chunk index shows what the overlay shows.
#[verifier::opaque]
pub open spec fn mirrored<B: IoBackend, F: Fn(&[u8]) -> Option<Descriptor>>(
    a: Store<B>,
    decode: F,
    log: Seq<(u64, OpView)>,
    h: nat,
) -> bool {
    let ops = ops_of(log);
    &&& a.ready()
    &&& a.whole(h)
    &&& a.chunks_ok(h)
    &&& is_log(a.laid@, a.root.log_seq, log)
    &&& a.root.log_seq <= a.epoch.seq
    &&& forall|i: int| 0 <= i < log.len() ==> (#[trigger] log[i]).0 <= a.epoch.seq
    &&& mirrors(replayed(a.ns(), a.objects(), ops), a.ns(), a.epoch@)
    &&& all_applicable(a.ns(), a.objects(), ops, decode)
    &&& mapped(replayed_chunks(a.chunks(), ops, decode)) == mapped(a.chunks()).union_prefer_right(
        a.epoch@.chunks,
    )
    &&& staged_held(a)
    &&& numbered(a.ns(), a.epoch)
}

proof fn lemma_replayed_same(
    n: Namespace,
    p: Set<Seq<u8>>,
    q: Set<Seq<u8>>,
    ops: Seq<OpView>,
)
    requires
        forall|i: int| 0 <= i < ops.len() ==> resolves(p, #[trigger] ops[i]),
        p.subset_of(q),
        clash_free(q),
    ensures
        replayed(n, q, ops) == replayed(n, p, ops),
    decreases ops.len(),
{
    if ops.len() > 0 {
        let had = ops.drop_last();
        assert forall|i: int| 0 <= i < had.len() implies resolves(p, #[trigger] had[i]) by {
            assert(ops[i] == had[i]);
        }
        lemma_replayed_same(n, p, q, had);
        assert(ops[ops.len() - 1] == ops.last());
        lemma_resolved_grows(p, q, ops.last());
    }
}

/// Further objects leave what a log makes of a namespace.
#[verifier::rlimit(40)]
#[verifier::spinoff_prover]
pub(crate) proof fn lemma_replayed_grows<F: Fn(&[u8]) -> Option<Descriptor>>(
    n: Namespace,
    p: Set<Seq<u8>>,
    q: Set<Seq<u8>>,
    ops: Seq<OpView>,
    decode: F,
)
    requires
        all_applicable(n, p, ops, decode),
        p.subset_of(q),
        clash_free(q),
    ensures
        replayed(n, q, ops) == replayed(n, p, ops),
        all_applicable(n, q, ops, decode),
{
    lemma_replayed_same(n, p, q, ops);
    assert forall|i: int| 0 <= i < ops.len() implies {
        &&& resolves(q, #[trigger] ops[i])
        &&& applicable(replayed(n, q, ops.take(i)), resolved(q, ops[i]))
        &&& all_decode(op_chunks(ops[i]), decode)
    } by {
        let had = ops.take(i);
        assert forall|j: int| 0 <= j < had.len() implies resolves(p, #[trigger] had[j]) by {
            assert(ops[j] == had[j]);
        }
        lemma_replayed_same(n, p, q, had);
        lemma_resolved_grows(p, q, ops[i]);
    }
}

/// The objects of a store after an append are those before it, and more.
pub(crate) proof fn lemma_objects_grow<B: IoBackend>(a: Store<B>, b: Store<B>)
    requires
        a.wf(),
        b.wf(),
        a.given@.subset_of(b.given@),
        clash_free(b.seen@),
    ensures
        a.objects().subset_of(b.objects()),
        clash_free(b.objects()),
        b.objects() == b.given@,
{
    lemma_clash_free_subset(b.given@, b.seen@);
    lemma_given(b.objects(), b.given@);
}

/// The log with one operation more.
proof fn lemma_log_push(
    laid: Map<u64, Seq<RecordView>>,
    now: Map<u64, Seq<RecordView>>,
    floor: u64,
    log: Seq<(u64, OpView)>,
    records: Seq<PendingRecord>,
    seq: u64,
    op: OpView,
)
    requires
        is_log(laid, floor, log),
        logged(records, seq, op),
        seq > floor,
        forall|i: int| 0 <= i < log.len() ==> (#[trigger] log[i]).0 < seq,
        forall|x: RecordView| #[trigger]
            on_record(now, x) <==> on_record(laid, x) || views_of(records).contains(x),
    ensures
        is_log(now, floor, log.push((seq, op))),
{
    let more = log.push((seq, op));
    let views = views_of(records);
    let last = records.len() - 1;
    assert(views[last] == log_record(seq, op));
    assert(views.contains(log_record(seq, op)));
    assert forall|i: int| 0 <= i < more.len() implies (#[trigger] more[i]).0 > floor && op_ok(
        more[i].1,
    ) && on_record(now, log_record(more[i].0, more[i].1)) by {
        if i < log.len() {
            assert(more[i] == log[i]);
        }
    }
    assert forall|v: RecordView| #[trigger]
        on_record(now, v) && v.tag == RecordTag::MutationLog implies listed_in(v, floor, more) by {
        if on_record(laid, v) {
            if exists|i: int|
                0 <= i < log.len() && v.payload == envelope_bytes((#[trigger] log[i]).0, log[i].1) {
                let i = choose|i: int|
                    0 <= i < log.len() && v.payload == envelope_bytes(
                        (#[trigger] log[i]).0,
                        log[i].1,
                    );
                assert(more[i] == log[i]);
            }
        } else {
            let i = choose|i: int| 0 <= i < views.len() && views[i] == v;
            if i < last {
                assert(records.drop_last()[i] == records[i]);
            }
            assert(more[log.len() as int] == (seq, op));
        }
    }
}

/// One operation more: where its record makes of the mirrored namespace what the overlay
/// then shows, the log still mirrors the overlay.
#[verifier::rlimit(40)]
#[verifier::spinoff_prover]
pub(crate) proof fn lemma_step<B: IoBackend, F: Fn(&[u8]) -> Option<Descriptor>>(
    a: Store<B>,
    b: Store<B>,
    records: Seq<PendingRecord>,
    op: OpView,
    decode: F,
    log: Seq<(u64, OpView)>,
    h: nat,
)
    requires
        mirrored(a, decode, log, h),
        clash_free(b.seen@),
        b.ready(),
        b.config == a.config && b.root == a.root,
        b.epoch.seq == a.epoch.seq + 1,
        log_appended(
            (Store { epoch: b.epoch, epoch_pending: b.epoch_pending, ..a }),
            b,
            records,
        ),
        records_cover(a.epoch, b.epoch, records),
        logged(records, b.epoch.seq, op),
        resolves(b.objects(), op),
        all_decode(op_chunks(op), decode),
        ({
            let m = replayed(a.ns(), a.objects(), ops_of(log));
            let e = resolved(b.objects(), op);
            applicable(m, e) && mirrors(applied(m, e), a.ns(), b.epoch@)
        }),
        mapped(
            chunk_index_with(
                replayed_chunks(a.chunks(), ops_of(log), decode),
                op_chunks(op),
                decode,
            ),
        ) == mapped(a.chunks()).union_prefer_right(b.epoch@.chunks),
        numbered(a.ns(), b.epoch),
    ensures
        mirrored(b, decode, log.push((b.epoch.seq, op)), h),
        b.ns() == a.ns(),
        b.chunks() == a.chunks(),
{
    reveal(mirrored);
    let mid = Store { epoch: b.epoch, epoch_pending: b.epoch_pending, ..a };
    let seq = b.epoch.seq;
    let ops = ops_of(log);
    let more = log.push((seq, op));
    let p = a.objects();
    let q = b.objects();
    assert(b.given@ == a.given@.union(crate::store::payloads_of(records).to_set()));
    lemma_objects_grow(a, b);
    lemma_fs_grows(p, q, a.root@.inode_index_root, a.config.max_fanout, h, h);
    lemma_tree_grows(p, q, a.root@.chunk_index_root, a.config.max_fanout, h, h);
    lemma_replayed_grows(a.ns(), p, q, ops, decode);
    assert(ops_of(more).drop_last() =~= ops);
    assert(ops_of(more).last() == op);
    assert(view_lens(views_of(records)) =~= crate::place::lens_of(records));
    lemma_down_on_record(
        a.laid@,
        a.io.segments(),
        a.config.segment_size,
        crate::store::spot_of(a),
        views_of(records),
    );
    assert(crate::store::spot_of(mid) == crate::store::spot_of(a));
    lemma_log_push(a.laid@, b.laid@, a.root.log_seq, log, records, seq, op);
    assert forall|i: int| 0 <= i < ops_of(more).len() implies {
        &&& resolves(q, #[trigger] ops_of(more)[i])
        &&& applicable(replayed(a.ns(), q, ops_of(more).take(i)), resolved(q, ops_of(more)[i]))
        &&& all_decode(op_chunks(ops_of(more)[i]), decode)
    } by {
        if i < ops.len() {
            assert(ops_of(more)[i] == ops[i]);
            assert(ops_of(more).take(i) =~= ops.take(i));
        } else {
            assert(ops_of(more).take(i) =~= ops);
        }
    }
    assert forall|id: Seq<u8>| #[trigger] staged(b.epoch, id) implies exists|x: Seq<u8>| #[trigger]
        q.contains(x) && digest(x) == id by {
        if staged(a.epoch, id) {
            let x = choose|x: Seq<u8>| #[trigger] p.contains(x) && digest(x) == id;
            assert(q.contains(x));
        } else {
            assert(recorded_in(records, id));
            let i = choose|i: int|
                0 <= i < records.len() && digest((#[trigger] records[i]).payload@) == id;
            let ps = crate::store::payloads_of(records);
            assert(ps[i] == records[i].payload@);
            assert(ps.to_set().contains(ps[i]));
            assert(q.contains(records[i].payload@));
        }
    }
}

} // verus!
