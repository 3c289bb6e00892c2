//! Laws of recovery from the log: which records are replayed, in which order, and what each of
//! them leaves; and of the store that is made new.

use vstd::prelude::*;

use crate::chunk::zero_id;
use crate::descriptor::{decoded, self_alias, Descriptor};
use crate::epoch_ops::update_chunks;
use crate::extent_tree::{extent_key_of, extent_key_order};
use crate::extents::{masks, ExtentUpdate};
use crate::file_laws::extent_at;
use crate::fs::{Listing, Namespace, BTREE_ORDER};
use crate::inode::InodeView;
use crate::io::IoBackend;
use crate::log::{parse_envelope, MutationOp, OpView};
use crate::namespace::is_dir;
use crate::reopen::created;
use crate::replay::{applied, chunk_index_with, extents_with, is_tail, replayed, replayed_chunks,
    resolved, seq_of, write_mask, Event};
use crate::sorted::{lemma_lookup_upsert, lemma_upsert_sorted, lookup, sorted};
use crate::store::{Store, StoreConfig};
use crate::tree::clash_free;

verus! {

/// The tail of the log is every record above the floor and none at or below it, each once and
/// in the order of their sequence numbers.
pub proof fn tail_is_what_is_above(
    log: Seq<(u64, MutationOp)>,
    envs: Seq<Vec<u8>>,
    floor: u64,
    i: int,
    j: int,
)
    requires
        is_tail(log, envs, floor),
    ensures
        0 <= i < log.len() ==> log[i].0 > floor,
        0 <= i < j < log.len() ==> log[i].0 < log[j].0,
        0 <= j < envs.len() && (parse_envelope(envs[j]@) matches Ok(e) && e.0 > floor) ==> exists|
            k: int,
        |
            0 <= k < log.len() && (#[trigger] log[k]).0 == parse_envelope(envs[j]@)->Ok_0.0
                && log[k].1@ == parse_envelope(envs[j]@)->Ok_0.1,
{
    if 0 <= i < log.len() {
        let k = choose|k: int|
            0 <= k < envs.len() && crate::replay::in_tail((#[trigger] envs[k])@, floor)
                && parse_envelope(envs[k]@) == Ok::<(u64, OpView), crate::codec::CodecError>(
                (log[i].0, log[i].1@),
            );
        assert(seq_of(envs[k]@) == Some(log[i].0));
    }
    if 0 <= j < envs.len() {
        if let Ok(e) = parse_envelope(envs[j]@) {
            assert(seq_of(envs[j]@) == Some(e.0));
            if e.0 > floor {
                assert(crate::replay::in_tail(envs[j]@, floor));
            }
        }
    }
}

/// Records are replayed one after another: those of two runs are those of the first and then
/// those of the second, for the namespace and for the chunk index.
pub proof fn replay_goes_on<F: Fn(&[u8]) -> Option<Descriptor>>(
    n: Namespace,
    p: Set<Seq<u8>>,
    s: Listing,
    decode: F,
    a: Seq<OpView>,
    b: Seq<OpView>,
)
    ensures
        replayed(n, p, a + b) == replayed(replayed(n, p, a), p, b),
        replayed_chunks(s, a + b, decode) == replayed_chunks(
            replayed_chunks(s, a, decode),
            b,
            decode,
        ),
    decreases b.len(),
{
    if b.len() == 0 {
        assert(a + b =~= a);
    } else {
        replay_goes_on(n, p, s, decode, a, b.drop_last());
        assert((a + b).drop_last() =~= a + b.drop_last());
        assert((a + b).last() == b.last());
    }
}

/// One record is replayed as the event that it stands for.
pub proof fn one_record_is_one_event(n: Namespace, p: Set<Seq<u8>>, op: OpView)
    ensures
        replayed(n, p, Seq::empty()) == n,
        replayed(n, p, seq![op]) == applied(n, resolved(p, op)),
{
    assert(seq![op].drop_last() =~= Seq::empty());
    assert(seq![op].last() == op);
    assert(replayed(n, p, seq![op].drop_last()) == n);
}

/// The last of the chunks at the offset is the one at `i`.
pub open spec fn last_chunk(cs: Seq<(u64, Seq<u8>, Seq<u8>)>, x: u64, i: int) -> bool {
    &&& 0 <= i < cs.len()
    &&& cs[i].0 == x
    &&& forall|j: int| i < j < cs.len() ==> (#[trigger] cs[j]).0 != x
}

/// None of the chunks is at the offset.
pub open spec fn no_chunk(cs: Seq<(u64, Seq<u8>, Seq<u8>)>, x: u64) -> bool {
    forall|j: int| 0 <= j < cs.len() ==> (#[trigger] cs[j]).0 != x
}

/// One chunk more among the extents.
proof fn lemma_extents_step(s: Listing, cs: Seq<(u64, Seq<u8>, Seq<u8>)>, x: u64)
    requires
        sorted(extents_with(s, cs.drop_last())),
        cs.len() > 0,
    ensures
        sorted(extents_with(s, cs)),
        extent_at(extents_with(s, cs), x) == if cs.last().0 == x {
            Some(cs.last().2)
        } else {
            extent_at(extents_with(s, cs.drop_last()), x)
        },
{
    let c = cs.last();
    let t = extents_with(s, cs.drop_last());
    lemma_upsert_sorted(t, extent_key_of(c.0), c.2);
    lemma_lookup_upsert(t, extent_key_of(c.0), c.2, extent_key_of(x));
    extent_key_order(c.0, x);
}

proof fn lemma_extents_kept(s: Listing, cs: Seq<(u64, Seq<u8>, Seq<u8>)>, x: u64)
    requires
        sorted(s),
    ensures
        sorted(extents_with(s, cs)),
        no_chunk(cs, x) ==> extent_at(extents_with(s, cs), x) == extent_at(s, x),
    decreases cs.len(),
{
    if cs.len() > 0 {
        let p = cs.drop_last();
        lemma_extents_kept(s, p, x);
        lemma_extents_step(s, cs, x);
        if no_chunk(cs, x) {
            assert(cs[cs.len() - 1].0 != x);
            assert forall|j: int| 0 <= j < p.len() implies (#[trigger] p[j]).0 != x by {
                assert(p[j] == cs[j]);
            }
        }
    }
}

proof fn lemma_extents_with(s: Listing, cs: Seq<(u64, Seq<u8>, Seq<u8>)>, x: u64, i: int)
    requires
        sorted(s),
        last_chunk(cs, x, i),
    ensures
        extent_at(extents_with(s, cs), x) == Some(cs[i].2),
    decreases cs.len(),
{
    let p = cs.drop_last();
    lemma_extents_kept(s, p, x);
    lemma_extents_step(s, cs, x);
    if i < p.len() {
        assert(cs[cs.len() - 1].0 != x);
        assert(p[i] == cs[i]);
        assert forall|j: int| i < j < p.len() implies (#[trigger] p[j]).0 != x by {
            assert(p[j] == cs[j]);
        }
        lemma_extents_with(s, p, x, i);
    }
}

/// A replayed write leaves at each of its offsets the last descriptor that it has for it, and
/// every other extent as it was; the file has the size and the change time that were logged,
/// and is else as it was. No other inode changes.
pub proof fn replayed_write_is_found(
    n: Namespace,
    ino: u64,
    cs: Seq<(u64, Seq<u8>, Seq<u8>)>,
    v: InodeView,
    x: u64,
    i: int,
    other: u64,
)
    requires
        n.contains_key(ino),
        sorted(n[ino].entries),
    ensures
        ({
            let m = applied(n, Event::Write { ino, chunks: cs, inode: v });
            &&& last_chunk(cs, x, i) ==> extent_at(m[ino].entries, x) == Some(cs[i].2)
            &&& no_chunk(cs, x) ==> extent_at(m[ino].entries, x) == extent_at(n[ino].entries, x)
            &&& m[ino].inode == (InodeView { size: v.size, ctime: v.ctime, ..n[ino].inode })
            &&& m[ino].xattrs == n[ino].xattrs
            &&& m.dom() == n.dom()
            &&& other != ino ==> m[other] == n[other]
        }),
{
    lemma_extents_kept(n[ino].entries, cs, x);
    if last_chunk(cs, x, i) {
        lemma_extents_with(n[ino].entries, cs, x, i);
    }
    assert(applied(n, Event::Write { ino, chunks: cs, inode: v }).dom() =~= n.dom());
}

/// A replayed chunk is listed under its content id with the last descriptor that was logged
/// for it, unless that only refers to the content itself; no other chunk changes.
#[verifier::rlimit(40)]
#[verifier::spinoff_prover]
pub proof fn replayed_chunk_is_listed<F: Fn(&[u8]) -> Option<Descriptor>>(
    s: Listing,
    cs: Seq<(u64, Seq<u8>, Seq<u8>)>,
    decode: F,
    id: Seq<u8>,
    i: int,
)
    requires
        sorted(s),
    ensures
        sorted(chunk_index_with(s, cs, decode)),
        0 <= i < cs.len() && cs[i].1 == id && !self_alias(decoded(decode, cs[i].2)->0.form, id) && (
        forall|j: int| i < j < cs.len() ==> (#[trigger] cs[j]).1 != id) ==> lookup(
            chunk_index_with(s, cs, decode),
            id,
        ) == Some(cs[i].2),
        (forall|j: int| 0 <= j < cs.len() ==> (#[trigger] cs[j]).1 != id) ==> lookup(
            chunk_index_with(s, cs, decode),
            id,
        ) == lookup(s, id),
    decreases cs.len(),
{
    if cs.len() > 0 {
        let p = cs.drop_last();
        let c = cs.last();
        let t = chunk_index_with(s, p, decode);
        replayed_chunk_is_listed(s, p, decode, id, i);
        lemma_upsert_sorted(t, c.1, c.2);
        lemma_lookup_upsert(t, c.1, c.2, id);
        assert(cs[cs.len() - 1] == c);
        if 0 <= i < p.len() {
            assert(p[i] == cs[i]);
        }
        if 0 <= i < p.len() && (forall|j: int| i < j < cs.len() ==> (#[trigger] cs[j]).1 != id) {
            assert(cs[cs.len() - 1].1 != id);
            assert forall|j: int| i < j < p.len() implies (#[trigger] p[j]).1 != id by {
                assert(p[j] == cs[j]);
            }
        }
        if forall|j: int| 0 <= j < cs.len() ==> (#[trigger] cs[j]).1 != id {
            assert(cs[cs.len() - 1].1 != id);
            assert forall|j: int| 0 <= j < p.len() implies (#[trigger] p[j]).1 != id by {
                assert(p[j] == cs[j]);
            }
        }
    }
}

/// A store that is made new has the identity given and one directory, the one at its top,
/// empty, of the owner given, that others may read and its owner may change; it has no chunks
/// and its log is empty.
pub proof fn new_store_is_one_directory<B: IoBackend>(
    st: Store<B>,
    config: StoreConfig,
    uuid: Seq<u8>,
)
    requires
        created(st, config, uuid),
        clash_free(st.seen@),
        BTREE_ORDER <= st.config.max_fanout,
    ensures
        st.root@.uuid == uuid,
        st.ns().dom() == set![st.root@.root_dir_ino],
        ({
            let top = st.ns()[st.root@.root_dir_ino];
            &&& is_dir(top.inode) && top.inode.data is Directory
            &&& top.inode.mode & 0o7777 == 0o755
            &&& top.inode.uid == config.root_uid && top.inode.gid == config.root_gid
            &&& top.inode.nlink == 2
            &&& top.entries.len() == 0 && top.xattrs.len() == 0
        }),
        st.root@.log_seq == 0 && st.root@.chunk_index_root == zero_id(),
        st.features_in_use == 0,
{
    assert((0o040000u32 | (0o755u32 & 0o7777u32)) & 0o170000u32 == 0o040000u32) by (bit_vector);
    assert((0o040000u32 | (0o755u32 & 0o7777u32)) & 0o7777u32 == 0o755u32) by (bit_vector);
    assert(st.ns().dom() =~= set![st.root@.root_dir_ino]);
}

/// Replaying a write needs the features that the write needed.
pub proof fn replay_needs_what_was_needed<F: Fn(&[u8]) -> Option<Descriptor>>(
    us: Seq<ExtentUpdate>,
    decode: F,
)
    requires
        forall|i: int|
            0 <= i < us.len() ==> decoded(decode, (#[trigger] us[i]).bytes@) == Some(
                us[i].descriptor,
            ),
    ensures
        write_mask(update_chunks(us), decode) == masks(us),
    decreases us.len(),
{
    if us.len() > 0 {
        let p = us.drop_last();
        assert forall|i: int| 0 <= i < p.len() implies decoded(decode, (#[trigger] p[i]).bytes@)
            == Some(p[i].descriptor) by {
            assert(p[i] == us[i]);
        }
        replay_needs_what_was_needed(p, decode);
        assert(update_chunks(us).drop_last() =~= update_chunks(p));
        assert(us[us.len() - 1] == us.last());
        assert(update_chunks(us).last() == (
            us.last().offset,
            us.last().content_id@,
            us.last().bytes@,
        ));
    }
}

} // verus!
