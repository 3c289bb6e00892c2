//! Laws of the end of a file: what a truncation shortens, and that nothing reaches beyond the
//! new size.

use vstd::prelude::*;

use crate::attrs::AttrUpdate;
use crate::bytes::{be_value, lemma_be_canonical, lemma_pow256};
use crate::descriptor::{decoded, self_alias, Descriptor};
use crate::extent_tree::{at_or_below, extent_key_of, extent_key_order};
use crate::extents::{has_file, offset_of, region_refused, trim_chunks, trim_due, trim_fits,
    truncate_refused, truncated, update_refused, ExtentUpdate};
use crate::file_laws::{extent_at, truncate_is_found};
use crate::fs::{offsets_ok, Listing, Namespace};
use crate::inode::Timespec;
use crate::read_laws::{last_start, lemma_at_or_below};
use crate::sorted::{has_key, lemma_lookup_upsert, lemma_rank, lookup, rank, sorted};

verus! {

/// Every extent decodes, and none reaches into the next.
pub open spec fn laid_apart<F: Fn(&[u8]) -> Option<Descriptor>>(s: Listing, decode: F) -> bool {
    &&& forall|x: u64| (#[trigger] extent_at(s, x)) is Some ==> decoded(decode, extent_at(s, x)->0) is Some
    &&& forall|x: u64, y: u64|
        #![trigger extent_at(s, x), extent_at(s, y)]
        x < y && extent_at(s, x) is Some && extent_at(s, y) is Some ==> x + decoded(
            decode,
            extent_at(s, x)->0,
        )->0.len <= y
}

/// The extent at or below an offset is the last one that starts there or before.
proof fn lemma_last_start(s: Listing, o: u64)
    requires
        sorted(s),
        offsets_ok(s),
    ensures
        at_or_below(s, extent_key_of(o)) matches Some(e) ==> last_start(s, o, offset_of(e.0))
            && extent_at(s, offset_of(e.0)) == Some(e.1),
        at_or_below(s, extent_key_of(o)) is None ==> forall|x: u64|
            x <= o ==> #[trigger] extent_at(s, x) is None,
{
    let k = extent_key_of(o);
    lemma_at_or_below(s, o);
    lemma_rank(s, k);
    let r = rank(s, k);
    if let Some(e) = at_or_below(s, k) {
        let i = if has_key(s, k) {
            r
        } else {
            r - 1
        };
        assert(s[i] == e);
        lemma_pow256();
        lemma_be_canonical(e.0);
        assert(extent_key_of(be_value(e.0) as u64) == e.0);
        let x = offset_of(e.0);
        assert(extent_key_of(x) == e.0);
        assert forall|y: u64| x < y <= o implies #[trigger] extent_at(s, y) is None by {
            if extent_at(s, y) is Some {
                let ky = extent_key_of(y);
                lemma_rank(s, ky);
                let j = rank(s, ky);
                assert(s[j].0 == ky);
                extent_key_order(x, y);
                extent_key_order(y, o);
                if y < o {
                    assert(j < r);
                    assert(!has_key(s, k) ==> j <= i);
                    if has_key(s, k) {
                        assert(e.0 == k);
                        extent_key_order(x, o);
                    } else if j < i {
                        assert(crate::bytes::lex_lt(s[j].0, s[i].0));
                        extent_key_order(y, x);
                    }
                } else {
                    assert(has_key(s, k));
                    extent_key_order(x, o);
                }
            }
        }
    }
}

/// What a truncation has to shorten is the last extent that starts below the new size, where
/// it reaches beyond it, down to what lies below; where it does not reach beyond it, or none
/// starts below, there is nothing to shorten.
pub proof fn trim_is_what_reaches_over<F: Fn(&[u8]) -> Option<Descriptor>>(
    s: Listing,
    size: u64,
    decode: F,
    x: u64,
)
    requires
        sorted(s),
        offsets_ok(s),
    ensures
        size == 0 ==> trim_due(s, size, decode) == Some(None::<(u64, u64)>),
        size > 0 && (forall|y: u64| y < size ==> #[trigger] extent_at(s, y) is None) ==> trim_due(
            s,
            size,
            decode,
        ) == Some(None::<(u64, u64)>),
        size > 0 && last_start(s, (size - 1) as u64, x) ==> (match decoded(
            decode,
            extent_at(s, x)->0,
        ) {
            None => trim_due(s, size, decode) is None,
            Some(d) => trim_due(s, size, decode) == Some(
                if x + d.len > size {
                    Some((x, (size - x) as u64))
                } else {
                    None
                },
            ),
        }),
{
    if size > 0 {
        let o = (size - 1) as u64;
        lemma_last_start(s, o);
        if let Some(e) = at_or_below(s, extent_key_of(o)) {
            let z = offset_of(e.0);
            assert(extent_at(s, z) is Some);
            if last_start(s, o, x) {
                if z < x {
                    assert(extent_at(s, x) is None);
                } else if x < z {
                    assert(extent_at(s, z) is None);
                }
            }
        } else if last_start(s, o, x) {
            assert(extent_at(s, x) is None);
        }
    }
}

/// In a truncated file no extent reaches beyond its size: the shortened one ends there, and
/// every other ends at or before it.
pub proof fn truncated_file_ends_at_size<F: Fn(&[u8]) -> Option<Descriptor>>(
    n: Namespace,
    ino: u64,
    size: u64,
    decode: F,
    trim: Option<ExtentUpdate>,
    now: Timespec,
    x: u64,
)
    requires
        sorted(n[ino].entries),
        offsets_ok(n[ino].entries),
        laid_apart(n[ino].entries, decode),
        !truncate_refused(n, ino, size, decode, trim),
    ensures
        ({
            let s = truncated(n[ino], size, trim, now).entries;
            &&& trim matches Some(u) ==> u.offset < size && u.offset + u.descriptor.len == size
                && extent_at(n[ino].entries, u.offset) is Some && extent_at(s, u.offset) == Some(
                u.bytes@,
            )
            &&& extent_at(s, x) is Some && !(trim matches Some(u) && u.offset == x) ==> {
                &&& extent_at(s, x) == extent_at(n[ino].entries, x)
                &&& x + decoded(decode, extent_at(s, x)->0)->0.len <= size
            }
        }),
{
    reveal(trim_fits);
    let e = n[ino].entries;
    if size > 0 {
        let o = (size - 1) as u64;
        lemma_last_start(e, o);
        if let Some(a) = at_or_below(e, extent_key_of(o)) {
            let z = offset_of(a.0);
            trim_is_what_reaches_over(e, size, decode, z);
            assert(extent_at(e, z) is Some);
            if let Some(u) = trim {
                assert(u.offset == z);
            }
            if x < size && extent_at(e, x) is Some {
                if x < z {
                    assert(x + decoded(decode, extent_at(e, x)->0)->0.len <= z);
                } else if z < x {
                    assert(extent_at(e, x) is None);
                }
            }
        } else {
            if x < size {
                assert(extent_at(e, x) is None);
            }
        }
    }
    truncate_is_found(n[ino], size, trim, now, x);
    if let Some(u) = trim {
        truncate_is_found(n[ino], size, trim, now, u.offset);
    }
}

/// A truncation of a file that needs no shortened extent, and is given none, is done; one that
/// needs one and is given none is refused.
pub proof fn truncation_needs_its_trim<F: Fn(&[u8]) -> Option<Descriptor>>(
    n: Namespace,
    ino: u64,
    size: u64,
    decode: F,
    x: u64,
)
    requires
        has_file(n, ino),
        sorted(n[ino].entries),
        offsets_ok(n[ino].entries),
        laid_apart(n[ino].entries, decode),
        size > 0,
        last_start(n[ino].entries, (size - 1) as u64, x),
    ensures
        truncate_refused(n, ino, size, decode, None) == (x + decoded(
            decode,
            extent_at(n[ino].entries, x)->0,
        )->0.len > size),
{
    reveal(trim_fits);
    trim_is_what_reaches_over(n[ino].entries, size, decode, x);
    assert(extent_at(n[ino].entries, x) is Some);
}

/// A write is refused exactly where it has extents for what is no file, or a size for what is
/// not there.
pub proof fn writes_need_a_file(
    n: Namespace,
    ino: u64,
    us: Seq<ExtentUpdate>,
    size: Option<u64>,
)
    ensures
        n.contains_key(ino) && n[ino].inode.data is File ==> !region_refused(n, ino, us, size),
        !n.contains_key(ino) && (us.len() > 0 || size is Some) ==> region_refused(n, ino, us, size),
        n.contains_key(ino) && !(n[ino].inode.data is File) ==> region_refused(n, ino, us, size) == (
        us.len() > 0),
{
}

/// A change of attributes is refused where the inode is not there; where it leaves the size
/// as it is it is done; where it gives another size it is refused exactly where a truncation
/// to that size is.
pub proof fn updates_need_an_inode<F: Fn(&[u8]) -> Option<Descriptor>>(
    n: Namespace,
    ino: u64,
    u: AttrUpdate,
    decode: F,
    trim: Option<ExtentUpdate>,
)
    ensures
        !n.contains_key(ino) ==> update_refused(n, ino, u, decode, trim),
        n.contains_key(ino) && (u.size is None || u.size == Some(n[ino].inode.size))
            ==> !update_refused(n, ino, u, decode, trim),
        n.contains_key(ino) && u.size is Some && u.size != Some(n[ino].inode.size)
            ==> update_refused(n, ino, u, decode, trim) == truncate_refused(
            n,
            ino,
            u.size->0,
            decode,
            trim,
        ),
{
}

/// The chunk of a shortened extent is listed with its descriptor, unless that only refers to
/// the content itself; no other chunk changes, and none does where no extent is shortened.
pub proof fn trimmed_chunk_is_listed(s: Listing, trim: Option<ExtentUpdate>, id: Seq<u8>)
    requires
        sorted(s),
    ensures
        trim is None ==> trim_chunks(s, trim) == s,
        trim matches Some(u) ==> {
            &&& u.content_id@ != id ==> lookup(trim_chunks(s, trim), id) == lookup(s, id)
            &&& u.content_id@ == id && !self_alias(u.descriptor.form, id) ==> lookup(
                trim_chunks(s, trim),
                id,
            ) == Some(u.bytes@)
            &&& self_alias(u.descriptor.form, u.content_id@) ==> trim_chunks(s, trim) == s
        },
{
    if let Some(u) = trim {
        lemma_lookup_upsert(s, u.content_id@, u.bytes@, id);
    }
}

} // verus!
