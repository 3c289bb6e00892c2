//! Where nothing is pending the log mirrors the overlay: in a new store, behind a checkpoint
//! and in a store that has replayed its log. What is logged from there on survives a crash.

use vstd::prelude::*;

use crate::descriptor::Descriptor;
use crate::epoch::{empty_overlay, mapped};
use crate::epoch_laws::{empty_overlay_shows_committed, ordered};
use crate::epoch_ops::numbered;
use crate::fs::{contents_ok, data_root, inode_at, lemma_ns_at, BTREE_ORDER};
use crate::io::IoBackend;
use crate::journal::{accounted, checkpointable, merged};
use crate::checkpoint::merged_levels;
use crate::log::{envelope_round_trip, MutationOp, OpView};
use crate::mount::{mounted, root_kept, slots_hold};
use crate::place::{keeps_log, on_record};
use crate::record::RecordView;
use crate::recovered::acknowledged_survives_crash;
use crate::reopen::{created, tail_replayed};
use crate::replay::{log_levels, replayed, seq_of};
use crate::sorted::sorted;
use crate::store::{Store, StoreConfig};
use crate::survival::{is_log, listed_in, mirrored, ops_of};
use crate::tree::clash_free;
use crate::version::RecordTag;

verus! {

/// Every record of the log is merged into the trees of the root.
pub open spec fn log_merged<B: IoBackend>(a: Store<B>) -> bool {
    is_log(a.laid@, a.root.log_seq, Seq::empty())
}

/// The namespace of a store that reads lists its contents in key order.
pub(crate) proof fn lemma_whole_ordered<B: IoBackend>(a: Store<B>, h: nat)
    requires
        a.whole(h),
    ensures
        ordered(a.ns()),
{
    let p = a.objects();
    let table = a.root@.inode_index_root;
    let f = a.config.max_fanout;
    assert forall|i: u64| #[trigger] a.ns().contains_key(i) implies sorted(a.ns()[i].entries)
        && contents_ok(a.ns()[i].inode.data, a.ns()[i].entries) by {
        lemma_ns_at(p, table, f, h, i);
        let v = inode_at(p, table, f, i)->0;
        crate::fs::lemma_tree_sorted(p, data_root(v.data), f, h);
    }
}

/// Where nothing is pending or staged and the log is merged, nothing is to be replayed.
pub proof fn quiet_is_mirrored<B: IoBackend, F: Fn(&[u8]) -> Option<Descriptor>>(
    a: Store<B>,
    decode: F,
    h: nat,
)
    requires
        a.ready(),
        a.whole(h),
        a.chunks_ok(h),
        log_merged(a),
        a.root.log_seq <= a.epoch.seq,
        a.epoch@ == empty_overlay(),
        a.epoch.staged_objects@.len() == 0,
        numbered(a.ns(), a.epoch),
    ensures
        mirrored(a, decode, Seq::empty(), h),
{
    reveal(mirrored);
    let none = Seq::<(u64, OpView)>::empty();
    assert(ops_of(none) =~= Seq::empty());
    lemma_whole_ordered(a, h);
    empty_overlay_shows_committed(a.ns());
    assert(mapped(a.chunks()).union_prefer_right(a.epoch@.chunks) =~= mapped(a.chunks()));
}

/// A commit adds nothing to the log: what was merged stays so.
pub proof fn commit_keeps_log_merged<B: IoBackend>(a: Store<B>, b: Store<B>)
    requires
        log_merged(a),
        accounted(a, b),
        a.root.log_seq <= b.root.log_seq,
    ensures
        log_merged(b),
{
    reveal(keeps_log);
    let none = Seq::<(u64, OpView)>::empty();
    assert forall|v: RecordView| #[trigger]
        on_record(b.laid@, v) && v.tag == RecordTag::MutationLog implies listed_in(
        v,
        b.root.log_seq,
        none,
    ) by {
        assert(on_record(a.laid@, v));
        assert(listed_in(v, a.root.log_seq, none));
    }
}

/// A log whose numbers the root names, and that nothing was added to, is merged.
pub(crate) proof fn lemma_log_taken<B: IoBackend>(
    a: Store<B>,
    b: Store<B>,
    log: Seq<(u64, OpView)>,
)
    requires
        is_log(a.laid@, a.root.log_seq, log),
        keeps_log(a.laid@, b.laid@),
        a.root.log_seq <= b.root.log_seq,
        forall|i: int| 0 <= i < log.len() ==> (#[trigger] log[i]).0 <= b.root.log_seq,
    ensures
        log_merged(b),
{
    reveal(keeps_log);
    let none = Seq::<(u64, OpView)>::empty();
    assert forall|v: RecordView| #[trigger]
        on_record(b.laid@, v) && v.tag == RecordTag::MutationLog implies listed_in(
        v,
        b.root.log_seq,
        none,
    ) by {
        assert(on_record(a.laid@, v));
        assert(listed_in(v, a.root.log_seq, log));
        if !(seq_of(v.payload) matches Some(n) && n <= a.root.log_seq) {
            let i = choose|i: int|
                0 <= i < log.len() && v.payload == crate::log::envelope_bytes(
                    (#[trigger] log[i]).0,
                    log[i].1,
                );
            envelope_round_trip(log[i].0, log[i].1);
        }
    }
}

/// A new store has nothing to replay.
pub proof fn created_is_mirrored<B: IoBackend, F: Fn(&[u8]) -> Option<Descriptor>>(
    st: Store<B>,
    config: StoreConfig,
    uuid: Seq<u8>,
    decode: F,
)
    requires
        created(st, config, uuid),
        clash_free(st.seen@),
        BTREE_ORDER <= config.max_fanout,
    ensures
        mirrored(st, decode, Seq::empty(), 1),
{
    assert(st.whole(1));
    assert(st.chunks_ok(1));
    assert(log_merged(st)) by {
        reveal(keeps_log);
        reveal(on_record);
    }
    quiet_is_mirrored(st, decode, 1);
}

/// Behind a checkpoint nothing is to be replayed.
pub proof fn checkpoint_is_mirrored<B: IoBackend, F: Fn(&[u8]) -> Option<Descriptor>>(
    a: Store<B>,
    b: Store<B>,
    decode: F,
    log: Seq<(u64, OpView)>,
    h: nat,
)
    requires
        mirrored(a, decode, log, h),
        merged(a, b),
        checkpointable(a, b, h),
    ensures
        mirrored(b, decode, Seq::empty(), merged_levels(h)),
{
    reveal(mirrored);
    lemma_log_taken(a, b, log);
    assert(numbered(b.ns(), b.epoch)) by {
        assert forall|i: u64| b.epoch.max_ino != 0 && #[trigger] b.ns().contains_key(i) implies i
            <= b.epoch.max_ino by {
            let shown = crate::epoch::faces(b.ns());
            assert(shown.contains_key(i));
            assert(crate::epoch::shown(a.ns(), a.epoch@, i));
        }
    }
    quiet_is_mirrored(b, decode, merged_levels(h));
}

/// A store that has replayed its log behind a crash has nothing to replay.
#[verifier::spinoff_prover]
pub proof fn recovered_is_mirrored<B: IoBackend, F: Fn(&[u8]) -> Option<Descriptor>>(
    a: Store<B>,
    m: Store<B>,
    b: Store<B>,
    seqs: Seq<u64>,
    slot_a: Seq<u8>,
    slot_b: Seq<u8>,
    decode: F,
    envs: Seq<Vec<u8>>,
    found: Seq<(u64, MutationOp)>,
    log: Seq<(u64, OpView)>,
    h: nat,
)
    requires
        mirrored(a, decode, log, h),
        root_kept(a),
        slots_hold(a.superblock@, slot_a, slot_b),
        BTREE_ORDER <= a.config.max_fanout,
        clash_free(a.seen@.union(b.seen@)),
        forall|s: u64| #[trigger] a.io.segments().contains_key(s) == seqs.contains(s),
        forall|s: u64| #[trigger]
            a.laid@.contains_key(s) ==> a.laid@[s].len() < a.config.max_records_per_segment,
        a.io.segments().contains_key(a.superblock.segment_seq),
        mounted(m, a.io, a.config, seqs, slot_a, slot_b),
        tail_replayed(m, b, seqs, decode, envs, found),
    ensures
        mirrored(b, decode, Seq::empty(), h + log_levels(ops_of(log))),
{
    acknowledged_survives_crash(a, m, b, seqs, slot_a, slot_b, decode, envs, found, log, h);
    quiet_is_mirrored(b, decode, h + log_levels(ops_of(log)));
}

} // verus!
