//! Which extents a read needs.

use vstd::prelude::*;

use crate::chunk::ChunkId;
use crate::error::StoreError;
use crate::extent_tree::{self, at_or_below, extent_key_of, some_bad_key, starts_decode};
use crate::extents::has_file;
use crate::fs::{data_root, inode_fits, lemma_listing, listing, offsets_ok, BTREE_ORDER};
use crate::index::{first_of, range_of, trusty, ObjectProvider};
use crate::inode::InodeData;
use crate::io::IoBackend;
use crate::namespace::strained;
use crate::sorted::{lemma_rank, sorted};
use crate::store::Store;
use crate::transaction::Tx;
use crate::tree::{lists, max_height};
use crate::window::{clip_read, Extent};

verus! {

/// What a read needs: the window, and the descriptors of the extents in it.
#[derive(Debug)]
pub struct ReadPlan {
    pub extents: Vec<Extent>,
    /// Where the scan for them started.
    pub from: u64,
    pub offset: u64,
    pub end: u64,
}

/// Where the scan for a read starts: at the extent at or below the offset, else at
/// the offset.
pub open spec fn scan_from(s: Seq<(Seq<u8>, Seq<u8>)>, offset: u64, from: u64) -> bool {
    match at_or_below(s, extent_key_of(offset)) {
        Some(e) => extent_key_of(from) == e.0,
        None => from == offset,
    }
}

/// The plan holds the extents from where the scan starts up to the end of the window.
pub open spec fn plan_holds(
    s: Seq<(Seq<u8>, Seq<u8>)>,
    plan: ReadPlan,
    offset: u64,
    len: u64,
    size: u64,
) -> bool {
    &&& plan.offset == offset
    &&& plan.end == if offset + len < size {
        offset + len
    } else {
        size as int
    }
    &&& scan_from(s, offset, plan.from)
    &&& starts_decode(
        range_of(s, Some(extent_key_of(plan.from)), Some(extent_key_of(plan.end))),
        plan.extents@,
    )
}

proof fn lemma_range_part(s: Seq<(Seq<u8>, Seq<u8>)>, a: Option<Seq<u8>>, b: Option<Seq<u8>>)
    requires
        offsets_ok(s),
    ensures
        range_of(s, a, b).len() <= s.len(),
        offsets_ok(range_of(s, a, b)),
    decreases s.len(),
{
    if s.len() > 0 {
        let d = s.drop_last();
        assert(offsets_ok(d)) by {
            assert forall|i: int| 0 <= i < d.len() implies (#[trigger] d[i]).0.len() == 8 by {
                assert(d[i] == s[i]);
            }
        }
        lemma_range_part(d, a, b);
        let rest = range_of(d, a, b);
        let all = range_of(s, a, b);
        assert(s.last() == s[s.len() - 1]);
        assert forall|i: int| 0 <= i < all.len() implies (#[trigger] all[i]).0.len() == 8 by {
            if i < rest.len() {
                assert(all[i] == rest[i]);
            }
        }
    }
}

/// The keys of a range of offsets are offsets, and so is the key that a scan starts
/// from.
pub proof fn lemma_scan(s: Seq<(Seq<u8>, Seq<u8>)>, from: u64, end: u64)
    requires
        offsets_ok(s),
        sorted(s),
    ensures
        ({
            let part = range_of(s, Some(extent_key_of(from)), Some(extent_key_of(end)));
            &&& part.len() <= s.len()
            &&& !some_bad_key(first_of(part, usize::MAX as nat))
            &&& at_or_below(s, extent_key_of(from)) matches Some(e) ==> e.0.len() == 8
        }),
{
    let part = range_of(s, Some(extent_key_of(from)), Some(extent_key_of(end)));
    lemma_range_part(s, Some(extent_key_of(from)), Some(extent_key_of(end)));
    lemma_rank(s, extent_key_of(from));
    let firsts = first_of(part, usize::MAX as nat);
    assert forall|i: int| 0 <= i < firsts.len() implies (#[trigger] firsts[i]).0.len() == 8 by {
        assert(firsts[i] == part[i]);
    }
}

/// The extents of a tree of offsets from the one at or below `offset` on, up to
/// `end`: where the scan starts, and what it gives.
pub fn scan_extents_batched<P: ObjectProvider>(
    extent_root: ChunkId,
    offset: u64,
    end: u64,
    max_fanout: u32,
    provider: &P,
) -> (r: Result<(u64, Vec<Extent>), StoreError>)
    ensures
        forall|h: nat, s: Seq<(Seq<u8>, Seq<u8>)>|
            trusty(provider) && s.len() <= usize::MAX && offsets_ok(s) && #[trigger] lists(
                provider.payloads(),
                extent_root@,
                BTREE_ORDER,
                max_fanout,
                h,
                s,
            ) ==> match r {
                Ok(o) => scan_from(s, offset, o.0) && starts_decode(
                    range_of(s, Some(extent_key_of(o.0)), Some(extent_key_of(end))),
                    o.1@,
                ),
                Err(_) => provider.may_fail() || h > max_height(),
            },
{
    proof {
        assert forall|h: nat, s: Seq<(Seq<u8>, Seq<u8>)>|
            trusty(provider) && offsets_ok(s) && #[trigger] lists(
                provider.payloads(),
                extent_root@,
                BTREE_ORDER,
                max_fanout,
                h,
                s,
            ) implies (at_or_below(s, extent_key_of(offset)) matches Some(e) ==> e.0.len() == 8) by {
            lemma_listing(provider.payloads(), extent_root@, max_fanout, h, s);
            lemma_scan(s, offset, end);
        }
    }
    let from: u64 = match extent_tree::covering(
        extent_root,
        offset,
        BTREE_ORDER,
        max_fanout,
        provider,
    ) {
        Ok(Some(e)) => e.0,
        Ok(None) => offset,
        Err(e) => return Err(StoreError::index(e)),
    };
    proof {
        assert forall|h: nat, s: Seq<(Seq<u8>, Seq<u8>)>|
            trusty(provider) && s.len() <= usize::MAX && offsets_ok(s) && #[trigger] lists(
                provider.payloads(),
                extent_root@,
                BTREE_ORDER,
                max_fanout,
                h,
                s,
            ) implies ({
            let part = range_of(s, Some(extent_key_of(from)), Some(extent_key_of(end)));
            &&& first_of(part, usize::MAX as nat) == part
            &&& !some_bad_key(part)
        }) by {
            lemma_listing(provider.payloads(), extent_root@, max_fanout, h, s);
            lemma_scan(s, from, end);
        }
    }
    match extent_tree::scan_range(
        extent_root,
        from,
        end,
        usize::MAX,
        BTREE_ORDER,
        max_fanout,
        provider,
    ) {
        Ok(scan) => Ok((from, scan.0)),
        Err(e) => Err(StoreError::index(e)),
    }
}

impl<B: IoBackend> Store<B> {
    /// The extents that a read of a file needs: those in the window, and the one that
    /// the window may start in. Nothing for an empty window.
    #[verifier::rlimit(40)]
    pub fn read_plan_in_tx(tx: &Tx<'_, B>, ino: u64, offset: u64, len: u64) -> (r: Result<
        Option<ReadPlan>,
        StoreError,
    >)
        ensures
            forall|h: nat| #[trigger]
                tx.reads(h) && (tx.ns().contains_key(ino) ==> tx.ns()[ino].entries.len()
                    <= usize::MAX) ==> match r {
                    Ok(None) => has_file(tx.ns(), ino) && (len == 0 || offset
                        >= tx.ns()[ino].inode.size),
                    Ok(Some(plan)) => {
                        &&& has_file(tx.ns(), ino)
                        &&& len > 0
                        &&& offset < tx.ns()[ino].inode.size
                        &&& plan_holds(
                            tx.ns()[ino].entries,
                            plan,
                            offset,
                            len,
                            tx.ns()[ino].inode.size,
                        )
                    },
                    Err(_) => strained(*tx, h) || !has_file(tx.ns(), ino),
                },
    {
        let inode = match Self::inode_for_tx(tx, ino) {
            Ok(v) => v,
            Err(e) => return Err(e),
        };
        let extent_root = match &inode.data {
            InodeData::File { extent_root } => *extent_root,
            _ => return Err(StoreError::Invariant("not a regular file".to_string())),
        };
        let (avail, end) = clip_read(inode.size, offset, len);
        if avail == 0 {
            return Ok(None);
        }
        let ghost s = listing(tx.objects.payloads(), extent_root@, tx.max_fanout);
        proof {
            assert forall|h: nat| #[trigger] tx.reads(h) implies ({
                &&& tx.ns()[ino].entries == s
                &&& offsets_ok(s)
                &&& lists(tx.objects.payloads(), extent_root@, BTREE_ORDER, tx.max_fanout, h, s)
            }) by {
                assert(inode_fits(tx.objects.payloads(), inode@, tx.max_fanout, h));
                assert(data_root(inode@.data) == extent_root@);
            }
        }
        match scan_extents_batched(extent_root, offset, end, tx.max_fanout, &tx.objects) {
            Ok((from, extents)) => Ok(Some(ReadPlan { extents, from, offset, end })),
            Err(e) => Err(e),
        }
    }
}

} // verus!
