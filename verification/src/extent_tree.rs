//! Extent tree operations: persistent B-tree mapping a logical offset to
//! extent descriptor bytes.
//!
//! Extents never overlap and are strictly ordered. Gaps are holes.

use vstd::prelude::*;

use crate::bytes::{be_bytes, be_u64, copy_bytes, lemma_be_order, lemma_lex_order, lemma_pow256,
    lex_lt, u64_be};
use crate::chunk::{zero_id, ChunkId};
use crate::index::{self, first_of, grown, lemma_range_from, pair_views, range_of, trusty,
    BTreeError, EntryPair, ObjectProvider};
use crate::sorted::{below, erase, has_key, lemma_rank, lemma_rank_is, rank, sorted, upsert};
use crate::tree::{clash_free, lemma_lists_sorted, lists, max_height};

verus! {

/// The key of the extent that starts at `offset`.
pub open spec fn extent_key_of(offset: u64) -> Seq<u8> {
    be_bytes(offset as nat, 8)
}

/// Key for an extent: 8-byte big-endian logical offset (lexicographic order is
/// numeric order).
pub fn extent_key(offset: u64) -> (r: Vec<u8>)
    ensures
        r@ == extent_key_of(offset),
        r@.len() == 8,
{
    u64_be(offset)
}

/// Extent keys sort as the offsets do.
pub proof fn extent_key_order(a: u64, b: u64)
    ensures
        lex_lt(extent_key_of(a), extent_key_of(b)) == (a < b),
        (extent_key_of(a) == extent_key_of(b)) == (a == b),
{
    lemma_pow256();
    lemma_be_order(a as nat, b as nat, 8);
    lemma_be_order(b as nat, a as nat, 8);
    lemma_lex_order();
}

/// Nothing lies between a key and the key with one zero byte behind it.
proof fn lemma_lex_next(x: Seq<u8>, k: Seq<u8>)
    ensures
        lex_lt(x, k.push(0)) == (lex_lt(x, k) || x == k),
    decreases x.len(),
{
    if x.len() == 0 {
        if k.len() == 0 {
            assert(x =~= k);
        }
    } else if k.len() == 0 {
        assert(k.push(0)[0] == 0);
        assert(k.push(0).drop_first() =~= Seq::<u8>::empty());
        assert(!lex_lt(x.drop_first(), Seq::<u8>::empty()));
    } else {
        assert(k.push(0).drop_first() =~= k.drop_first().push(0));
        lemma_lex_next(x.drop_first(), k.drop_first());
        if x[0] == k[0] && x.drop_first() == k.drop_first() {
            assert(x =~= seq![x[0]] + x.drop_first());
            assert(k =~= seq![k[0]] + k.drop_first());
        }
    }
}

/// The entry with the greatest key at or below `k`.
pub open spec fn at_or_below(s: Seq<(Seq<u8>, Seq<u8>)>, k: Seq<u8>) -> Option<
    (Seq<u8>, Seq<u8>),
> {
    if has_key(s, k) {
        Some(s[rank(s, k)])
    } else {
        below(s, k)
    }
}

/// The entry with the least key above `k`.
pub open spec fn above(s: Seq<(Seq<u8>, Seq<u8>)>, k: Seq<u8>) -> Option<(Seq<u8>, Seq<u8>)> {
    let r = if has_key(s, k) {
        rank(s, k) + 1
    } else {
        rank(s, k)
    };
    if r < s.len() {
        Some(s[r])
    } else {
        None
    }
}

proof fn lemma_rank_next(s: Seq<(Seq<u8>, Seq<u8>)>, k: Seq<u8>)
    requires
        sorted(s),
    ensures
        rank(s, k.push(0)) == if has_key(s, k) {
            rank(s, k) + 1
        } else {
            rank(s, k)
        },
{
    lemma_lex_order();
    lemma_rank(s, k);
    let r = if has_key(s, k) {
        rank(s, k) + 1
    } else {
        rank(s, k)
    };
    if r > 0 {
        lemma_lex_next(s[r - 1].0, k);
    }
    if r < s.len() {
        lemma_lex_next(s[r].0, k);
        if has_key(s, k) {
            assert(lex_lt(s[r - 1].0, s[r].0));
        }
    }
    lemma_rank_is(s, k.push(0), r);
}

/// The bytes of the key right behind `offset`'s.
fn key_behind(offset: u64) -> (r: Vec<u8>)
    ensures
        r@ == extent_key_of(offset).push(0),
{
    let mut key = extent_key(offset);
    key.push(0);
    key
}

/// `(start, descriptor)` pairs of `raw`, every key an eight-byte offset.
pub open spec fn starts_decode(
    raw: Seq<(Seq<u8>, Seq<u8>)>,
    out: Seq<(u64, Vec<u8>)>,
) -> bool {
    &&& out.len() == raw.len()
    &&& forall|i: int|
        0 <= i < raw.len() ==> extent_key_of(out[i].0) == (#[trigger] raw[i]).0 && out[i].1@
            == raw[i].1
}

/// Some key of `raw` is not an eight-byte offset.
pub open spec fn some_bad_key(raw: Seq<(Seq<u8>, Seq<u8>)>) -> bool {
    exists|i: int| 0 <= i < raw.len() && (#[trigger] raw[i]).0.len() != 8
}

fn decode_starts(entries: Vec<EntryPair>) -> (r: Result<Vec<(u64, Vec<u8>)>, BTreeError>)
    ensures
        match r {
            Ok(out) => starts_decode(pair_views(entries@), out@),
            Err(e) => e is Corrupt && some_bad_key(pair_views(entries@)),
        },
{
    let ghost raw = pair_views(entries@);
    let mut out: Vec<(u64, Vec<u8>)> = Vec::with_capacity(entries.len());
    let mut i: usize = 0;
    while i < entries.len()
        invariant
            i <= entries@.len(),
            raw == pair_views(entries@),
            starts_decode(raw.take(i as int), out@),
        decreases entries@.len() - i,
    {
        let (k, v) = (&entries[i].0, &entries[i].1);
        assert(raw[i as int] == (k@, v@));
        if k.len() != 8 {
            return Err(BTreeError::Corrupt("extent key".to_string()));
        }
        let ghost had = out@;
        out.push((be_u64(k), copy_bytes(v)));
        proof {
            let now = raw.take(i + 1);
            assert forall|j: int| 0 <= j < now.len() implies extent_key_of(out@[j].0) == (
            #[trigger] now[j]).0 && out@[j].1@ == now[j].1 by {
                if j < i {
                    assert(now[j] == raw.take(i as int)[j]);
                    assert(out@[j] == had[j]);
                }
            }
        }
        i += 1;
    }
    assert(raw.take(i as int) =~= raw);
    Ok(out)
}

/// Find the first extent start strictly greater than `pos` (hole skip). A key
/// that is no offset is corrupt.
pub fn next_extent_start<P: ObjectProvider>(
    extent_root: ChunkId,
    pos: u64,
    order: u16,
    max_fanout: u32,
    provider: &P,
) -> (r: Result<Option<u64>, BTreeError>)
    ensures
        forall|h: nat, s: Seq<(Seq<u8>, Seq<u8>)>|
            trusty(provider) && #[trigger] lists(
                provider.payloads(),
                extent_root@,
                order,
                max_fanout,
                h,
                s,
            ) ==> match r {
                Ok(None) => above(s, extent_key_of(pos)) is None,
                Ok(Some(start)) => above(s, extent_key_of(pos)) matches Some(e) && e.0
                    == extent_key_of(start) && start > pos,
                Err(_) => provider.may_fail() || h > max_height() || (above(s, extent_key_of(pos)) matches Some(e)
                    && e.0.len() != 8),
            },
{
    let key = key_behind(pos);
    let (entries, _, _) = match index::scan(
        extent_root,
        Some(&key),
        None,
        1,
        order,
        max_fanout,
        provider,
    ) {
        Ok(v) => v,
        Err(e) => return Err(e),
    };
    let ghost raw = pair_views(entries@);
    proof {
        assert forall|h: nat, s: Seq<(Seq<u8>, Seq<u8>)>|
            trusty(provider) && #[trigger] lists(
                provider.payloads(),
                extent_root@,
                order,
                max_fanout,
                h,
                s,
            ) implies above(s, extent_key_of(pos)) == if raw.len() > 0 {
            Some(raw[0])
        } else {
            None
        } && (raw.len() > 0 ==> lex_lt(extent_key_of(pos), raw[0].0)) by {
            lemma_lex_order();
            lemma_lists_sorted(provider.payloads(), extent_root@, order, max_fanout, h, s);
            lemma_rank_next(s, extent_key_of(pos));
            lemma_rank(s, extent_key_of(pos));
            lemma_range_from(s, Some(key@));
            let full = s.skip(rank(s, key@));
            lemma_rank(s, key@);
            if full.len() > 0 {
                assert(full[0] == s[rank(s, key@)]);
                lemma_lex_next(s[rank(s, key@)].0, extent_key_of(pos));
            }
        }
    }
    if entries.len() == 0 {
        return Ok(None);
    }
    let k = &entries[0].0;
    assert(raw[0].0 == k@);
    if k.len() != 8 {
        return Err(BTreeError::Corrupt("extent key".to_string()));
    }
    let start: u64 = be_u64(k);
    proof {
        extent_key_order(pos, start);
    }
    Ok(Some(start))
}

/// Look up the extent covering `offset` (the greatest extent with
/// start <= offset). Returns (extent start, descriptor bytes). A key that is no
/// offset is corrupt.
pub fn covering<P: ObjectProvider>(
    extent_root: ChunkId,
    offset: u64,
    order: u16,
    max_fanout: u32,
    provider: &P,
) -> (r: Result<Option<(u64, Vec<u8>)>, BTreeError>)
    ensures
        forall|h: nat, s: Seq<(Seq<u8>, Seq<u8>)>|
            trusty(provider) && #[trigger] lists(
                provider.payloads(),
                extent_root@,
                order,
                max_fanout,
                h,
                s,
            ) ==> match r {
                Ok(None) => at_or_below(s, extent_key_of(offset)) is None,
                Ok(Some(e)) => at_or_below(s, extent_key_of(offset)) == Some(
                    (extent_key_of(e.0), e.1@),
                ) && e.0 <= offset,
                Err(_) => provider.may_fail() || h > max_height() || (at_or_below(s, extent_key_of(offset)) matches Some(
                    e,
                ) && e.0.len() != 8),
            },
{
    let key = key_behind(offset);
    let found = match index::predecessor(extent_root, &key, order, max_fanout, provider) {
        Ok(v) => v,
        Err(e) => return Err(e),
    };
    proof {
        assert forall|h: nat, s: Seq<(Seq<u8>, Seq<u8>)>|
            trusty(provider) && #[trigger] lists(
                provider.payloads(),
                extent_root@,
                order,
                max_fanout,
                h,
                s,
            ) implies below(s, key@) == at_or_below(s, extent_key_of(offset)) && (below(
            s,
            key@,
        ) matches Some(e) ==> !lex_lt(extent_key_of(offset), e.0)) by {
            lemma_lex_order();
            lemma_lists_sorted(provider.payloads(), extent_root@, order, max_fanout, h, s);
            lemma_rank_next(s, extent_key_of(offset));
            lemma_rank(s, extent_key_of(offset));
        }
    }
    match found {
        None => Ok(None),
        Some((k, v)) => {
            if k.len() != 8 {
                return Err(BTreeError::Corrupt("extent key".to_string()));
            }
            let start: u64 = be_u64(&k);
            proof {
                extent_key_order(offset, start);
            }
            Ok(Some((start, v)))
        },
    }
}

/// Insert (or replace) the extent at `offset`.
pub fn insert<P: ObjectProvider>(
    extent_root: ChunkId,
    offset: u64,
    descriptor_bytes: &[u8],
    order: u16,
    max_fanout: u32,
    provider: &mut P,
) -> (r: Result<ChunkId, BTreeError>)
    ensures
        grown(old(provider), final(provider)),
        descriptor_bytes@.len() > u32::MAX ==> r == Err::<ChunkId, BTreeError>(
            BTreeError::ValueTooLarge,
        ),
        forall|h: nat, s: Seq<(Seq<u8>, Seq<u8>)>|
            descriptor_bytes@.len() <= u32::MAX && 1 <= order <= max_fanout && old(provider).faithful() && clash_free(final(provider).payloads())
                && #[trigger] lists(
                old(provider).payloads(),
                extent_root@,
                order,
                max_fanout,
                h,
                s,
            ) ==> match r {
                Ok(id) => lists(
                    final(provider).payloads(),
                    id@,
                    order,
                    max_fanout,
                    h + 1,
                    upsert(s, extent_key_of(offset), descriptor_bytes@),
                ) && id@ != zero_id(),
                Err(_) => old(provider).may_fail() || h > max_height(),
            },
{
    let key = extent_key(offset);
    index::insert(extent_root, &key, descriptor_bytes, order, max_fanout, provider)
}

/// Remove the extent at exactly `offset`; returns whether present.
pub fn remove<P: ObjectProvider>(
    extent_root: ChunkId,
    offset: u64,
    order: u16,
    max_fanout: u32,
    provider: &mut P,
) -> (r: Result<(ChunkId, bool), BTreeError>)
    ensures
        grown(old(provider), final(provider)),
        forall|h: nat, s: Seq<(Seq<u8>, Seq<u8>)>|
            old(provider).faithful() && clash_free(
                final(provider).payloads(),
            ) && #[trigger] lists(
                old(provider).payloads(),
                extent_root@,
                order,
                max_fanout,
                h,
                s,
            ) ==> match r {
                Ok(o) => {
                    &&& lists(
                        final(provider).payloads(),
                        o.0@,
                        order,
                        max_fanout,
                        h,
                        erase(s, extent_key_of(offset)),
                    )
                    &&& o.1 == has_key(s, extent_key_of(offset))
                    &&& !o.1 ==> o.0@ == extent_root@ && final(provider).payloads() == old(provider).payloads()
                },
                Err(_) => old(provider).may_fail() || h > max_height(),
            },
{
    let key = extent_key(offset);
    let before = match index::get(extent_root, &key, order, max_fanout, provider) {
        Ok(v) => v,
        Err(e) => return Err(e),
    };
    match index::remove(extent_root, &key, order, max_fanout, provider) {
        Ok(root) => Ok((root, before.is_some())),
        Err(e) => Err(e),
    }
}

/// Scan output: (start, descriptor bytes) pairs in offset order plus whether
/// more extents remain beyond the limit.
pub type ExtentScan = (Vec<(u64, Vec<u8>)>, bool);

/// Scan extents in `[start_offset, end_offset)` (inclusive lower, exclusive
/// upper). Returns (start, descriptor bytes) pairs in order. A key that is no
/// offset is corrupt.
pub fn scan_range<P: ObjectProvider>(
    extent_root: ChunkId,
    start_offset: u64,
    end_offset: u64,
    limit: usize,
    order: u16,
    max_fanout: u32,
    provider: &P,
) -> (r: Result<ExtentScan, BTreeError>)
    ensures
        forall|h: nat, s: Seq<(Seq<u8>, Seq<u8>)>|
            trusty(provider) && #[trigger] lists(
                provider.payloads(),
                extent_root@,
                order,
                max_fanout,
                h,
                s,
            ) ==> {
                let all = range_of(
                    s,
                    Some(extent_key_of(start_offset)),
                    Some(extent_key_of(end_offset)),
                );
                let shown = first_of(all, limit as nat);
                match r {
                    Ok(o) => starts_decode(shown, o.0@) && o.1 == (all.len() > limit),
                    Err(_) => provider.may_fail() || h > max_height() || some_bad_key(shown),
                }
            },
{
    let start = extent_key(start_offset);
    let end = extent_key(end_offset);
    match index::scan(
        extent_root,
        Some(&start),
        Some(&end),
        limit,
        order,
        max_fanout,
        provider,
    ) {
        Err(e) => Err(e),
        Ok((entries, has_more, _)) => match decode_starts(entries) {
            Ok(out) => Ok((out, has_more)),
            Err(e) => Err(e),
        },
    }
}

/// Scan all extents. A key that is no offset is corrupt.
pub fn scan_all<P: ObjectProvider>(
    extent_root: ChunkId,
    order: u16,
    max_fanout: u32,
    provider: &P,
) -> (r: Result<Vec<(u64, Vec<u8>)>, BTreeError>)
    ensures
        forall|h: nat, s: Seq<(Seq<u8>, Seq<u8>)>|
            trusty(provider) && s.len() <= usize::MAX && #[trigger] lists(
                provider.payloads(),
                extent_root@,
                order,
                max_fanout,
                h,
                s,
            ) ==> match r {
                Ok(o) => starts_decode(s, o@),
                Err(_) => provider.may_fail() || h > max_height() || some_bad_key(s),
            },
{
    match index::scan_all(extent_root, order, max_fanout, provider) {
        Err(e) => Err(e),
        Ok(entries) => decode_starts(entries),
    }
}

} // verus!
