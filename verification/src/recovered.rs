//! What a crash leaves of acknowledged operations: a store that is mounted from what another
//! has flushed, and that replays the log, shows what the other one showed.

use vstd::prelude::*;

use crate::codec::CodecError;
use crate::commit::lemma_flushed_disk;
use crate::descriptor::Descriptor;
use crate::epoch::{faces, fresh, mapped, overlaid};
use crate::fs::BTREE_ORDER;
use crate::index_edit::lemma_clash_free_subset;
use crate::io::{file_of, IoBackend};
use crate::log::{envelope_bytes, envelope_round_trip, parse_envelope, MutationOp, OpView};
use crate::mount::{byte_views, commit_survives_reopen, laid_out, lemma_own_records,
    lemma_placed_len, lemma_scan_laid, logs_in, logs_over, mounted, owned, own_records, root_kept,
    slots_hold};
use crate::record::RecordView;
use crate::reopen::{replayable, tail_replayed};
use crate::replay::{all_applicable, in_tail, is_tail, log_levels, op_views, replayed, seq_of};
use crate::segment::{placed, scan_of};
use crate::standing::{lemma_log_taken, log_merged};
use crate::store::{file_laid, Store};
use crate::survival::{is_log, lemma_replayed_grows, listed_in, log_record, mirrored, ops_of};
use crate::place::{lemma_keeps_log, on_record};
use crate::tree::clash_free;
use crate::version::RecordTag;

verus! {

proof fn lemma_placed_views(rs: Seq<RecordView>, at: nat, i: int)
    requires
        0 <= i < rs.len(),
    ensures
        placed(rs, at).len() == rs.len(),
        placed(rs, at)[i].0 == rs[i],
    decreases rs.len(),
{
    lemma_placed_len(rs, at);
    if i > 0 {
        let rest = rs.drop_first();
        let next = at + crate::record::record_size(rs[0]);
        lemma_placed_views(rest, next, i - 1);
        assert(placed(rs, at)[i] == placed(rest, next)[i - 1]);
        assert(rest[i - 1] == rs[i]);
    }
}

/// A file holds one run of records.
proof fn lemma_laid_once(f: Seq<u8>, rs: Seq<RecordView>, qs: Seq<RecordView>)
    requires
        file_laid(f, rs),
        file_laid(f, qs),
    ensures
        rs == qs,
{
    let limit = rs.len() + qs.len() + 1;
    lemma_scan_laid(f, rs, limit);
    lemma_scan_laid(f, qs, limit);
    lemma_placed_len(rs, 4);
    lemma_placed_len(qs, 4);
    assert forall|i: int| 0 <= i < rs.len() implies rs[i] == qs[i] by {
        lemma_placed_views(rs, 4, i);
        lemma_placed_views(qs, 4, i);
    }
    assert(rs =~= qs);
}

/// The payload is of a log record of this run.
spec fn logs_payload(rs: Seq<RecordView>, x: Seq<u8>) -> bool {
    exists|j: int|
        0 <= j < rs.len() && (#[trigger] rs[j]).tag == RecordTag::MutationLog && rs[j].payload == x
}

proof fn lemma_logs_in(ps: Seq<(RecordView, nat)>, rs: Seq<RecordView>, x: Seq<u8>)
    requires
        ps.len() == rs.len(),
        forall|i: int| 0 <= i < rs.len() ==> (#[trigger] ps[i]).0 == rs[i],
    ensures
        logs_in(ps).contains(x) == logs_payload(rs, x),
    decreases ps.len(),
{
    if ps.len() > 0 {
        let p = ps.drop_last();
        let r = rs.drop_last();
        assert forall|i: int| 0 <= i < r.len() implies (#[trigger] p[i]).0 == r[i] by {
            assert(ps[i].0 == rs[i]);
        }
        lemma_logs_in(p, r, x);
        let n = rs.len() - 1;
        assert(ps[n].0 == rs[n]);
        if logs_payload(r, x) {
            let j = choose|j: int|
                0 <= j < r.len() && (#[trigger] r[j]).tag == RecordTag::MutationLog && r[j].payload
                    == x;
            assert(rs[j] == r[j]);
        }
        if logs_payload(rs, x) {
            let j = choose|j: int|
                0 <= j < rs.len() && (#[trigger] rs[j]).tag == RecordTag::MutationLog
                    && rs[j].payload == x;
            if j < n {
                assert(r[j] == rs[j]);
            }
        }
        let had = logs_in(p);
        if rs[n].tag == RecordTag::MutationLog {
            let all = had.push(rs[n].payload);
            assert(all.contains(x) == (had.contains(x) || x == rs[n].payload)) by {
                if had.contains(x) {
                    let i = choose|i: int| 0 <= i < had.len() && had[i] == x;
                    assert(all[i] == x);
                }
                assert(all[had.len() as int] == rs[n].payload);
                if all.contains(x) && x != rs[n].payload {
                    let i = choose|i: int| 0 <= i < all.len() && all[i] == x;
                    assert(had[i] == x);
                }
            }
        }
    }
}

/// The log gathered from laid segments holds the payloads of their log records.
proof fn lemma_logs_over(
    segs: Map<u64, Seq<u8>>,
    seqs: Seq<u64>,
    limit: nat,
    laid: Map<u64, Seq<RecordView>>,
    n: int,
)
    requires
        laid_out(segs, seqs, limit, laid),
        0 <= n <= seqs.len(),
    ensures
        logs_over(segs, seqs.take(n), limit) is Some,
        forall|x: Seq<u8>| #[trigger]
            logs_over(segs, seqs.take(n), limit)->0.contains(x) <==> exists|i: int|
                0 <= i < n && logs_payload(laid[#[trigger] seqs[i]], x),
    decreases n,
{
    if n == 0 {
        assert(seqs.take(0) =~= Seq::empty());
    } else {
        lemma_logs_over(segs, seqs, limit, laid, n - 1);
        let cur = seqs.take(n);
        assert(cur.drop_last() =~= seqs.take(n - 1));
        assert(cur.last() == seqs[n - 1]);
        let s = seqs[n - 1];
        assert(seqs.contains(s));
        assert(laid.contains_key(s));
        assert(file_laid(segs[s], laid[s]));
        assert(file_of(segs, s) == segs[s]);
        lemma_scan_laid(segs[s], laid[s], limit);
        let ps = placed(laid[s], 4);
        lemma_placed_len(laid[s], 4);
        assert forall|i: int| 0 <= i < laid[s].len() implies (#[trigger] ps[i]).0 == laid[s][i] by {
            lemma_placed_views(laid[s], 4, i);
        }
        let done = logs_over(segs, seqs.take(n - 1), limit)->0;
        let all = done + logs_in(ps);
        assert forall|x: Seq<u8>| #[trigger] all.contains(x) <==> exists|i: int|
            0 <= i < n && logs_payload(laid[#[trigger] seqs[i]], x) by {
            lemma_logs_in(ps, laid[s], x);
            if done.contains(x) {
                let k = choose|k: int| 0 <= k < done.len() && done[k] == x;
                assert(all[k] == x);
            }
            if logs_in(ps).contains(x) {
                let k = choose|k: int| 0 <= k < logs_in(ps).len() && logs_in(ps)[k] == x;
                assert(all[done.len() + k] == x);
                assert(logs_payload(laid[seqs[n - 1]], x));
            }
            if all.contains(x) && !done.contains(x) {
                let k = choose|k: int| 0 <= k < all.len() && all[k] == x;
                if k < done.len() {
                    assert(done[k] == x);
                } else {
                    assert(logs_in(ps)[k - done.len()] == x);
                }
            }
        }
    }
}

/// Two logs in the order of their numbers that list the same operations are one.
proof fn lemma_one_log(a: Seq<(u64, OpView)>, b: Seq<(u64, OpView)>)
    requires
        forall|i: int, j: int| #![trigger a[i], a[j]] 0 <= i < j < a.len() ==> a[i].0 < a[j].0,
        forall|i: int, j: int| #![trigger b[i], b[j]] 0 <= i < j < b.len() ==> b[i].0 < b[j].0,
        forall|i: int| 0 <= i < a.len() ==> b.contains(#[trigger] a[i]),
        forall|i: int| 0 <= i < b.len() ==> a.contains(#[trigger] b[i]),
    ensures
        a == b,
    decreases a.len(),
{
    if a.len() == 0 {
        if b.len() > 0 {
            assert(a.contains(b[0]));
        }
        assert(a =~= b);
    } else {
        assert(b.contains(a[0]));
        let x = a.last();
        let y = b.last();
        let m = a.len() - 1;
        let n = b.len() - 1;
        assert(b.contains(a[m]) && a.contains(b[n]));
        let i = choose|i: int| 0 <= i < b.len() && b[i] == x;
        let j = choose|j: int| 0 <= j < a.len() && a[j] == y;
        assert(b[i].0 <= b[n].0);
        assert(a[j].0 <= a[m].0);
        assert(i == n);
        let p = a.drop_last();
        let q = b.drop_last();
        assert forall|i: int| 0 <= i < p.len() implies q.contains(#[trigger] p[i]) by {
            assert(p[i] == a[i]);
            assert(b.contains(a[i]));
            let k = choose|k: int| 0 <= k < b.len() && b[k] == a[i];
            assert(a[i].0 < a[m].0);
            assert(k != n);
            assert(q[k] == p[i]);
        }
        assert forall|i: int| 0 <= i < q.len() implies p.contains(#[trigger] q[i]) by {
            assert(q[i] == b[i]);
            assert(a.contains(b[i]));
            let k = choose|k: int| 0 <= k < a.len() && a[k] == b[i];
            assert(b[i].0 < b[n].0);
            assert(k != m);
            assert(p[k] == q[i]);
        }
        lemma_one_log(p, q);
        assert(a =~= p.push(x));
        assert(b =~= q.push(y));
    }
}

/// The numbers and operations of a log that was read.
spec fn log_views(log: Seq<(u64, MutationOp)>) -> Seq<(u64, OpView)> {
    Seq::new(log.len(), |i: int| (log[i].0, log[i].1@))
}

/// The payload is of a log record that lies in the segments.
spec fn from_log(laid: Map<u64, Seq<RecordView>>, x: Seq<u8>) -> bool {
    exists|v: RecordView| #[trigger]
        on_record(laid, v) && v.tag == RecordTag::MutationLog && v.payload == x
}

/// An envelope reads back, and so does its number.
proof fn lemma_envelope(seq: u64, op: OpView)
    requires
        crate::log::op_ok(op),
    ensures
        parse_envelope(envelope_bytes(seq, op)) == Ok::<(u64, OpView), CodecError>((seq, op)),
        seq_of(envelope_bytes(seq, op)) == Some(seq),
{
    envelope_round_trip(seq, op);
    crate::codec::lemma_scan_u64(seq, crate::log::op_bytes(op));
}

#[verifier::rlimit(40)]
#[verifier::spinoff_prover]
proof fn lemma_entry_read(
    laid: Map<u64, Seq<RecordView>>,
    floor: u64,
    log: Seq<(u64, OpView)>,
    envs: Seq<Vec<u8>>,
    found: Seq<(u64, MutationOp)>,
    i: int,
)
    requires
        is_log(laid, floor, log),
        is_tail(found, envs, floor),
        forall|v: RecordView| #[trigger]
            on_record(laid, v) && v.tag == RecordTag::MutationLog ==> byte_views(envs).contains(
                v.payload,
            ),
        0 <= i < log.len(),
    ensures
        log_views(found).contains(log[i]),
{
    let v = log_record(log[i].0, log[i].1);
    assert(on_record(laid, v));
    assert(byte_views(envs).contains(v.payload));
    let k = choose|k: int| 0 <= k < byte_views(envs).len() && byte_views(envs)[k] == v.payload;
    lemma_envelope(log[i].0, log[i].1);
    assert(envs[k]@ == envelope_bytes(log[i].0, log[i].1));
    assert(in_tail(envs[k]@, floor));
    let q = choose|q: int|
        0 <= q < found.len() && parse_envelope(envs[k]@) == Ok::<(u64, OpView), CodecError>(
            ((#[trigger] found[q]).0, found[q].1@),
        );
    assert(log_views(found)[q] == log[i]);
}

#[verifier::rlimit(40)]
#[verifier::spinoff_prover]
proof fn lemma_read_entry(
    laid: Map<u64, Seq<RecordView>>,
    floor: u64,
    log: Seq<(u64, OpView)>,
    envs: Seq<Vec<u8>>,
    found: Seq<(u64, MutationOp)>,
    i: int,
)
    requires
        is_log(laid, floor, log),
        is_tail(found, envs, floor),
        forall|i: int| 0 <= i < envs.len() ==> from_log(laid, (#[trigger] envs[i])@),
        0 <= i < found.len(),
    ensures
        log.contains(log_views(found)[i]),
{
    let _ = found[i];
    let k = choose|k: int|
        0 <= k < envs.len() && in_tail((#[trigger] envs[k])@, floor) && parse_envelope(envs[k]@)
            == Ok::<(u64, OpView), CodecError>((found[i].0, found[i].1@));
    let v = choose|v: RecordView| #[trigger]
        on_record(laid, v) && v.tag == RecordTag::MutationLog && v.payload == envs[k]@;
    assert(listed_in(v, floor, log));
    let q = choose|q: int|
        0 <= q < log.len() && v.payload == envelope_bytes((#[trigger] log[q]).0, log[q].1);
    lemma_envelope(log[q].0, log[q].1);
    assert(log[q] == log_views(found)[i]);
}

/// The log that is read is the one that lies in the segments.
proof fn lemma_log_read(
    laid: Map<u64, Seq<RecordView>>,
    floor: u64,
    log: Seq<(u64, OpView)>,
    envs: Seq<Vec<u8>>,
    found: Seq<(u64, MutationOp)>,
)
    requires
        is_log(laid, floor, log),
        is_tail(found, envs, floor),
        forall|v: RecordView| #[trigger]
            on_record(laid, v) && v.tag == RecordTag::MutationLog ==> byte_views(envs).contains(
                v.payload,
            ),
        forall|i: int| 0 <= i < envs.len() ==> from_log(laid, (#[trigger] envs[i])@),
    ensures
        log_views(found) == log,
{
    let read = log_views(found);
    assert forall|i: int, j: int| #![trigger read[i], read[j]] 0 <= i < j < read.len() implies read[i].0
        < read[j].0 by {
        assert(found[i].0 < found[j].0);
    }
    assert forall|i: int| 0 <= i < log.len() implies read.contains(#[trigger] log[i]) by {
        lemma_entry_read(laid, floor, log, envs, found, i);
    }
    assert forall|i: int| 0 <= i < read.len() implies log.contains(#[trigger] read[i]) by {
        lemma_read_entry(laid, floor, log, envs, found, i);
    }
    lemma_one_log(read, log);
}

/// What is mounted holds the records of what was flushed.
#[verifier::rlimit(40)]
#[verifier::spinoff_prover]
proof fn lemma_mounted_laid<B: IoBackend>(
    a: Store<B>,
    m: Store<B>,
    seqs: Seq<u64>,
    sa: Seq<u8>,
    sb: Seq<u8>,
)
    requires
        a.flushed(),
        m.ready(),
        mounted(m, a.io, a.config, seqs, sa, sb),
        owned(a.io.segments(), seqs, a.config.max_records_per_segment as nat),
        forall|s: u64| #[trigger] a.io.segments().contains_key(s) == seqs.contains(s),
        forall|s: u64| #[trigger]
            a.laid@.contains_key(s) ==> a.laid@[s].len() < a.config.max_records_per_segment,
        seqs.contains(m.superblock.segment_seq),
    ensures
        m.laid@ == a.laid@,
        laid_out(
            m.io.segments(),
            seqs,
            a.config.max_records_per_segment as nat,
            a.laid@,
        ),
{
    let limit = a.config.max_records_per_segment as nat;
    let segs = a.io.segments();
    let own = own_records(segs, seqs, limit);
    lemma_flushed_disk(a);
    lemma_flushed_disk(m);
    lemma_own_records(segs, seqs, limit);
    assert forall|s: u64| #[trigger] own.contains_key(s) implies own[s] == a.laid@[s] by {
        assert(segs.contains_key(s));
        assert(a.laid@.contains_key(s));
        lemma_laid_once(segs[s], own[s], a.laid@[s]);
    }
    assert(own.dom() =~= a.laid@.dom()) by {
        assert(a.disk().dom() == a.laid@.dom());
    }
    assert(own =~= a.laid@);
    assert(own.contains_key(m.superblock.segment_seq));
    assert(m.laid@ =~= a.laid@);
    assert forall|s: u64| #[trigger] a.laid@.contains_key(s) == seqs.contains(s) by {
        assert(segs.contains_key(s) == own.contains_key(s));
    }
}

/// A mounted store reads the log back as it was laid down, over what was committed.
#[verifier::rlimit(60)]
#[verifier::spinoff_prover]
proof fn lemma_read_back<B: IoBackend, F: Fn(&[u8]) -> Option<Descriptor>>(
    a: Store<B>,
    m: Store<B>,
    b: Store<B>,
    seqs: Seq<u64>,
    slot_a: Seq<u8>,
    slot_b: Seq<u8>,
    decode: F,
    envs: Seq<Vec<u8>>,
    found: Seq<(u64, MutationOp)>,
    log: Seq<(u64, OpView)>,
    h: nat,
)
    requires
        mirrored(a, decode, log, h),
        root_kept(a),
        slots_hold(a.superblock@, slot_a, slot_b),
        BTREE_ORDER <= a.config.max_fanout,
        clash_free(a.seen@.union(b.seen@)),
        forall|s: u64| #[trigger] a.io.segments().contains_key(s) == seqs.contains(s),
        forall|s: u64| #[trigger]
            a.laid@.contains_key(s) ==> a.laid@[s].len() < a.config.max_records_per_segment,
        a.io.segments().contains_key(a.superblock.segment_seq),
        mounted(m, a.io, a.config, seqs, slot_a, slot_b),
        tail_replayed(m, b, seqs, decode, envs, found),
    ensures
        m.ready(),
        m.ns() == a.ns() && m.chunks() == a.chunks(),
        m.whole(h) && m.chunks_ok(h),
        m.laid@ == a.laid@,
        m.root.log_seq == a.root.log_seq,
        m.config == a.config,
        log_views(found) == log,
        op_views(found) == ops_of(log),
        replayed(m.ns(), m.objects(), ops_of(log)) == replayed(a.ns(), a.objects(), ops_of(log)),
        all_applicable(m.ns(), m.objects(), ops_of(log), decode),
        clash_free(m.objects()),
{
    reveal(mirrored);
    let limit = a.config.max_records_per_segment as nat;
    let ops = ops_of(log);
    lemma_clash_free_subset(a.seen@, a.seen@.union(b.seen@));
    lemma_clash_free_subset(b.seen@, a.seen@.union(b.seen@));
    commit_survives_reopen(a, m, seqs, slot_a, slot_b);
    assert(m.ns() == a.ns() && m.chunks() == a.chunks());
    assert(owned(a.io.segments(), seqs, limit)) by {
        lemma_flushed_disk(a);
        assert forall|s: u64| #[trigger]
            a.io.segments().contains_key(s) && scan_of(a.io.segments()[s], limit) is Ok implies exists|
            rs: Seq<RecordView>,
        | #[trigger] file_laid(a.io.segments()[s], rs) && rs.len() < limit by {
            assert(a.laid@.contains_key(s));
            assert(file_laid(a.io.segments()[s], a.laid@[s]));
        }
    }
    assert(seqs.contains(m.superblock.segment_seq)) by {
        assert(m.superblock@.segment_seq == a.superblock@.segment_seq);
    }
    lemma_mounted_laid(a, m, seqs, slot_a, slot_b);
    lemma_found(m.io.segments(), seqs, limit, a.laid@, envs);
    assert(m.root.log_seq == a.root.log_seq) by {
        assert(m.root@ == a.root@);
    }
    lemma_log_read(a.laid@, a.root.log_seq, log, envs, found);
    assert(op_views(found) =~= ops) by {
        assert forall|i: int| 0 <= i < found.len() implies op_views(found)[i] == ops[i] by {
            assert(log_views(found)[i] == log[i]);
        }
        assert(found.len() == log.len());
    }
    assert(clash_free(m.objects())) by {
        lemma_seen_mounted(m, b, seqs, decode, envs, found);
        lemma_clash_free_subset(m.objects(), b.seen@);
    }
    lemma_replayed_grows(a.ns(), a.objects(), m.objects(), ops, decode);
}

/// An acknowledged operation survives a crash: a store that is mounted from what was flushed
/// and has replayed the log shows what the overlay of the store before the crash showed, and
/// the chunk index with its descriptors. Its own log is merged.
#[verifier::rlimit(60)]
#[verifier::spinoff_prover]
pub proof fn acknowledged_survives_crash<B: IoBackend, F: Fn(&[u8]) -> Option<Descriptor>>(
    a: Store<B>,
    m: Store<B>,
    b: Store<B>,
    seqs: Seq<u64>,
    slot_a: Seq<u8>,
    slot_b: Seq<u8>,
    decode: F,
    envs: Seq<Vec<u8>>,
    found: Seq<(u64, MutationOp)>,
    log: Seq<(u64, OpView)>,
    h: nat,
)
    requires
        mirrored(a, decode, log, h),
        root_kept(a),
        slots_hold(a.superblock@, slot_a, slot_b),
        BTREE_ORDER <= a.config.max_fanout,
        clash_free(a.seen@.union(b.seen@)),
        forall|s: u64| #[trigger] a.io.segments().contains_key(s) == seqs.contains(s),
        forall|s: u64| #[trigger]
            a.laid@.contains_key(s) ==> a.laid@[s].len() < a.config.max_records_per_segment,
        a.io.segments().contains_key(a.superblock.segment_seq),
        mounted(m, a.io, a.config, seqs, slot_a, slot_b),
        tail_replayed(m, b, seqs, decode, envs, found),
    ensures
        faces(b.ns()) == overlaid(a.ns(), a.epoch@),
        mapped(b.chunks()) == mapped(a.chunks()).union_prefer_right(a.epoch@.chunks),
        b.ready(),
        b.whole(h + log_levels(ops_of(log))),
        b.chunks_ok(h + log_levels(ops_of(log))),
        log_merged(b),
        b.root.log_seq <= b.epoch.seq,
        fresh(b.epoch),
{
    let ops = ops_of(log);
    lemma_read_back(a, m, b, seqs, slot_a, slot_b, decode, envs, found, log, h);
    lemma_clash_free_subset(b.seen@, a.seen@.union(b.seen@));
    assert(found.len() == log.len());
    assert(is_log(a.laid@, a.root.log_seq, log)) by {
        reveal(mirrored);
    }
    if found.len() == 0 {
        assert(ops =~= Seq::empty());
        lemma_keeps_log(m.laid@, m.laid@, m.laid@);
    } else {
        assert(replayable(m, b, ops, decode, h)) by {
            reveal(replayable);
        }
        assert(log_views(found)[log.len() - 1] == log.last());
    }
    lemma_log_taken(m, b, log);
    assert(faces(b.ns()) == overlaid(a.ns(), a.epoch@) && mapped(b.chunks()) == mapped(
        a.chunks(),
    ).union_prefer_right(a.epoch@.chunks)) by {
        reveal(mirrored);
    }
}

/// What a mounted store was handed is among what the store is handed that it becomes.
proof fn lemma_seen_mounted<B: IoBackend, F: Fn(&[u8]) -> Option<Descriptor>>(
    m: Store<B>,
    b: Store<B>,
    seqs: Seq<u64>,
    decode: F,
    envs: Seq<Vec<u8>>,
    found: Seq<(u64, MutationOp)>,
)
    requires
        m.wf(),
        tail_replayed(m, b, seqs, decode, envs, found),
    ensures
        m.objects().subset_of(b.seen@),
{
}

/// The envelopes gathered are the payloads of the log records.
proof fn lemma_found(
    segs: Map<u64, Seq<u8>>,
    seqs: Seq<u64>,
    limit: nat,
    laid: Map<u64, Seq<RecordView>>,
    envs: Seq<Vec<u8>>,
)
    requires
        laid_out(segs, seqs, limit, laid),
        logs_over(segs, seqs, limit) == Some(byte_views(envs)),
    ensures
        forall|v: RecordView| #[trigger]
            on_record(laid, v) && v.tag == RecordTag::MutationLog ==> byte_views(envs).contains(
                v.payload,
            ),
        forall|i: int| 0 <= i < envs.len() ==> from_log(laid, (#[trigger] envs[i])@),
{
    reveal(on_record);
    let n = seqs.len() as int;
    assert(seqs.take(n) =~= seqs);
    lemma_logs_over(segs, seqs, limit, laid, n);
    let all = byte_views(envs);
    let got = logs_over(segs, seqs.take(n), limit)->0;
    assert(got == all);
    assert forall|v: RecordView| #[trigger]
        on_record(laid, v) && v.tag == RecordTag::MutationLog implies all.contains(v.payload) by {
        let (s, j) = choose|s: u64, j: int|
            #![trigger laid[s][j]]
            laid.contains_key(s) && 0 <= j < laid[s].len() && laid[s][j] == v;
        assert(seqs.contains(s));
        let i = choose|i: int| 0 <= i < seqs.len() && seqs[i] == s;
        assert(laid[seqs[i]][j] == v);
        assert(logs_payload(laid[seqs[i]], v.payload));
        assert(got.contains(v.payload));
    }
    assert forall|k: int| 0 <= k < envs.len() implies from_log(laid, (#[trigger] envs[k])@) by {
        let x = envs[k]@;
        assert(all[k] == x);
        assert(got.contains(x));
        let i = choose|i: int| 0 <= i < n && logs_payload(laid[#[trigger] seqs[i]], x);
        let rs = laid[seqs[i]];
        let j = choose|j: int|
            0 <= j < rs.len() && (#[trigger] rs[j]).tag == RecordTag::MutationLog && rs[j].payload
                == x;
        assert(seqs.contains(seqs[i]));
        assert(laid[seqs[i]][j] == rs[j]);
        assert(on_record(laid, rs[j]));
    }
}

} // verus!
