//! Laws of reads: what a plan of a read holds, and what is put together from it, is what the
//! extents of the file say of every position in the window.

use vstd::prelude::*;

use crate::compose::held_chunk;
use crate::descriptor::{decoded, Descriptor};
use crate::epoch::Epoch;
use crate::extent_tree::{at_or_below, extent_key_of, extent_key_order};
use crate::file_laws::extent_at;
use crate::fs::Listing;
use crate::index::{in_range, range_of};
use crate::read_epoch::{covers_offset, last_pending, pending_at, plan_over};
use crate::read_plan::{plan_holds, ReadPlan};
use crate::sorted::{has_key, lemma_rank, rank, sorted};
use crate::window::{byte_at, covers_pos, window_of, Extent};

verus! {

/// The last extent of the file that starts at or before the position starts at `x`.
pub open spec fn last_start(s: Listing, pos: u64, x: u64) -> bool {
    &&& x <= pos
    &&& extent_at(s, x) is Some
    &&& forall|y: u64| x < y <= pos ==> #[trigger] extent_at(s, y) is None
}

/// The plan has this extent.
pub open spec fn planned(plan: ReadPlan, x: u64, b: Seq<u8>) -> bool {
    exists|i: int|
        0 <= i < plan.extents@.len() && (#[trigger] plan.extents@[i]).0 == x
            && plan.extents@[i].1@ == b
}

/// No extent of the file reaches into the next one.
pub open spec fn apart(s: Listing, content: spec_fn(Seq<u8>) -> Seq<u8>) -> bool {
    forall|x: u64, y: u64|
        #![trigger extent_at(s, x), extent_at(s, y)]
        x < y && extent_at(s, x) is Some && extent_at(s, y) is Some ==> x + content(
            extent_at(s, x)->0,
        ).len() <= y
}

proof fn lemma_listed(s: Listing, x: u64, i: int)
    requires
        sorted(s),
        0 <= i < s.len(),
        s[i].0 == extent_key_of(x),
    ensures
        extent_at(s, x) == Some(s[i].1),
        rank(s, extent_key_of(x)) == i,
{
    lemma_rank(s, extent_key_of(x));
}

/// What lies in a range is what the listing has there.
proof fn lemma_range_members(s: Listing, a: Option<Seq<u8>>, b: Option<Seq<u8>>)
    ensures
        forall|i: int|
            0 <= i < s.len() && in_range(a, b, (#[trigger] s[i]).0) ==> range_of(s, a, b).contains(
                s[i],
            ),
        forall|j: int|
            0 <= j < range_of(s, a, b).len() ==> s.contains(#[trigger] range_of(s, a, b)[j])
                && in_range(a, b, range_of(s, a, b)[j].0),
    decreases s.len(),
{
    if s.len() > 0 {
        let d = s.drop_last();
        lemma_range_members(d, a, b);
        let rest = range_of(d, a, b);
        let all = range_of(s, a, b);
        assert forall|i: int|
            0 <= i < s.len() && in_range(a, b, (#[trigger] s[i]).0) implies all.contains(s[i]) by {
            if i < d.len() {
                assert(d[i] == s[i]);
                let j = choose|j: int| 0 <= j < rest.len() && rest[j] == d[i];
                assert(all[j] == rest[j]);
            } else {
                assert(all[rest.len() as int] == s.last());
            }
        }
        assert forall|j: int| 0 <= j < all.len() implies s.contains(#[trigger] all[j]) && in_range(
            a,
            b,
            all[j].0,
        ) by {
            if j < rest.len() {
                assert(all[j] == rest[j]);
                assert(d.contains(rest[j]));
                let i = choose|i: int| 0 <= i < d.len() && d[i] == rest[j];
                assert(s[i] == all[j]);
            } else {
                assert(s[s.len() - 1] == all[j]);
            }
        }
    }
}

/// The entry at or below a key is listed there, and nothing between; or nothing is.
pub(crate) proof fn lemma_at_or_below(s: Listing, o: u64)
    requires
        sorted(s),
    ensures
        at_or_below(s, extent_key_of(o)) matches Some(e) ==> (forall|x: u64| #[trigger]
            extent_key_of(x) == e.0 ==> x <= o && extent_at(s, x) == Some(e.1)),
        at_or_below(s, extent_key_of(o)) is None ==> (forall|x: u64|
            x <= o ==> #[trigger] extent_at(s, x) is None),
{
    let k = extent_key_of(o);
    lemma_rank(s, k);
    let r = rank(s, k);
    if let Some(e) = at_or_below(s, k) {
        assert forall|x: u64| #[trigger] extent_key_of(x) == e.0 implies x <= o && extent_at(s, x)
            == Some(e.1) by {
            extent_key_order(x, o);
            let i = if has_key(s, k) {
                r
            } else {
                r - 1
            };
            lemma_listed(s, x, i);
        }
    } else {
        assert forall|x: u64| x <= o implies #[trigger] extent_at(s, x) is None by {
            extent_key_order(x, o);
            lemma_rank(s, extent_key_of(x));
            if extent_at(s, x) is Some {
                let i = rank(s, extent_key_of(x));
                assert(s[i].0 == extent_key_of(x));
                if x < o {
                    assert(i < r);
                } else {
                    assert(has_key(s, k));
                }
            }
        }
    }
}

/// A plan of a read names its window; every extent in it is the file's; and for every
/// position of the window that lies in the file, the last extent that starts at or before it
/// is in the plan, wherever it starts.
pub proof fn plan_has_what_covers(
    s: Listing,
    plan: ReadPlan,
    offset: u64,
    len: u64,
    size: u64,
    pos: u64,
    x: u64,
)
    requires
        sorted(s),
        plan_holds(s, plan, offset, len, size),
    ensures
        plan.offset == offset,
        offset <= size ==> plan.end == if offset + len < size {
            offset + len
        } else {
            size as int
        },
        forall|i: int|
            0 <= i < plan.extents@.len() ==> extent_at(s, (#[trigger] plan.extents@[i]).0) == Some(
                plan.extents@[i].1@,
            ) && plan.extents@[i].0 < plan.end,
        offset <= pos < offset + len && pos < size && last_start(s, pos, x) ==> planned(
            plan,
            x,
            extent_at(s, x)->0,
        ),
        offset <= x < offset + len && x < size && extent_at(s, x) is Some ==> planned(
            plan,
            x,
            extent_at(s, x)->0,
        ),
{
    let a = Some(extent_key_of(plan.from));
    let b = Some(extent_key_of(plan.end));
    let part = range_of(s, a, b);
    lemma_range_members(s, a, b);
    lemma_at_or_below(s, offset);
    assert forall|i: int| 0 <= i < plan.extents@.len() implies extent_at(
        s,
        (#[trigger] plan.extents@[i]).0,
    ) == Some(plan.extents@[i].1@) && plan.extents@[i].0 < plan.end by {
        let e = part[i];
        assert(extent_key_of(plan.extents@[i].0) == e.0);
        assert(s.contains(e));
        let j = choose|j: int| 0 <= j < s.len() && s[j] == e;
        lemma_listed(s, plan.extents@[i].0, j);
        extent_key_order(plan.extents@[i].0, plan.end);
    }
    assert(plan.from <= offset);
    if extent_at(s, x) is Some && plan.from <= x < plan.end {
        let k = extent_key_of(x);
        lemma_rank(s, k);
        let i = rank(s, k);
        extent_key_order(x, plan.from);
        extent_key_order(x, plan.end);
        assert(in_range(a, b, s[i].0));
        let j = choose|j: int| 0 <= j < part.len() && part[j] == s[i];
        assert(extent_key_of(plan.extents@[j].0) == part[j].0);
        extent_key_order(plan.extents@[j].0, x);
        assert(plan.extents@[j].0 == x);
    }
    if offset <= pos < offset + len && pos < size && last_start(s, pos, x) {
        if x < plan.from {
            if at_or_below(s, extent_key_of(offset)) is Some {
                assert(extent_at(s, plan.from) is Some);
            } else {
                assert(extent_at(s, x) is None);
            }
        }
    }
}

/// Where no extent reaches into the next, every extent that meets the window is in the plan,
/// whatever its start.
pub proof fn plan_has_what_meets(
    s: Listing,
    plan: ReadPlan,
    offset: u64,
    len: u64,
    size: u64,
    content: spec_fn(Seq<u8>) -> Seq<u8>,
    x: u64,
)
    requires
        sorted(s),
        plan_holds(s, plan, offset, len, size),
        apart(s, content),
        extent_at(s, x) is Some,
        x + content(extent_at(s, x)->0).len() > offset,
        x < offset + len,
        x < size,
        offset < size,
        len > 0,
    ensures
        planned(plan, x, extent_at(s, x)->0),
{
    plan_has_what_covers(s, plan, offset, len, size, offset, x);
    if x < offset {
        assert(last_start(s, offset, x)) by {
            assert forall|y: u64| x < y <= offset implies #[trigger] extent_at(s, y) is None by {
                if extent_at(s, y) is Some {
                    assert(x + content(extent_at(s, x)->0).len() <= y);
                }
            }
        }
    }
}

/// The extents of a plan with their contents.
pub open spec fn contents_of(
    plan: ReadPlan,
    content: spec_fn(Seq<u8>) -> Seq<u8>,
    es: Seq<Extent>,
) -> bool {
    &&& es.len() == plan.extents@.len()
    &&& forall|i: int|
        0 <= i < es.len() ==> (#[trigger] es[i]).0 == plan.extents@[i].0 && es[i].1@ == content(
            plan.extents@[i].1@,
        )
}

proof fn lemma_byte_at(es: Seq<Extent>, pos: int, b: u8)
    requires
        forall|i: int|
            0 <= i < es.len() && covers_pos(#[trigger] es[i], pos) ==> es[i].1@[pos - es[i].0] == b,
    ensures
        (exists|i: int| 0 <= i < es.len() && covers_pos(#[trigger] es[i], pos)) ==> byte_at(es, pos)
            == b,
        (forall|i: int| 0 <= i < es.len() ==> !covers_pos(#[trigger] es[i], pos)) ==> byte_at(
            es,
            pos,
        ) == 0,
    decreases es.len(),
{
    if es.len() > 0 {
        let d = es.drop_last();
        assert forall|i: int| 0 <= i < d.len() && covers_pos(#[trigger] d[i], pos) implies d[i].1@[pos
            - d[i].0] == b by {
            assert(d[i] == es[i]);
        }
        lemma_byte_at(d, pos, b);
        assert(es.last() == es[es.len() - 1]);
        if exists|i: int| 0 <= i < es.len() && covers_pos(#[trigger] es[i], pos) {
            let i = choose|i: int| 0 <= i < es.len() && covers_pos(#[trigger] es[i], pos);
            if i < d.len() {
                assert(covers_pos(d[i], pos));
            }
        }
        if forall|i: int| 0 <= i < es.len() ==> !covers_pos(#[trigger] es[i], pos) {
            assert forall|i: int| 0 <= i < d.len() implies !covers_pos(#[trigger] d[i], pos) by {
                assert(d[i] == es[i]);
            }
        }
    }
}

/// What is put together from a plan is the file: at every position of the window in the file
/// the byte of the extent that covers it, and zero where none does.
pub proof fn read_shows_the_file(
    s: Listing,
    plan: ReadPlan,
    offset: u64,
    len: u64,
    size: u64,
    content: spec_fn(Seq<u8>) -> Seq<u8>,
    es: Seq<Extent>,
    pos: u64,
    x: u64,
)
    requires
        sorted(s),
        plan_holds(s, plan, offset, len, size),
        apart(s, content),
        contents_of(plan, content, es),
        offset <= pos < offset + len,
        pos < size,
    ensures
        ({
            let avail = (plan.end - plan.offset) as nat;
            let w = window_of(es, plan.offset, plan.end, avail);
            let c = content(extent_at(s, x)->0);
            &&& pos - offset < w.len()
            &&& extent_at(s, x) is Some && x <= pos < x + c.len() ==> w[pos - offset] == c[pos - x]
            &&& (forall|y: u64|
                (#[trigger] extent_at(s, y)) is Some ==> !(y <= pos < y + content(
                    extent_at(s, y)->0,
                ).len())) ==> w[pos - offset] == 0
        }),
{
    plan_has_what_covers(s, plan, offset, len, size, pos, x);
    let c = content(extent_at(s, x)->0);
    assert forall|i: int| 0 <= i < es.len() && covers_pos(#[trigger] es[i], pos as int) implies
        extent_at(s, es[i].0) is Some && es[i].0 <= pos < es[i].0 + content(
        extent_at(s, es[i].0)->0,
    ).len() && es[i].1@ == content(extent_at(s, es[i].0)->0) by {
        assert(plan.extents@[i].0 == es[i].0);
    }
    if extent_at(s, x) is Some && x <= pos < x + c.len() {
        plan_has_what_meets(s, plan, offset, len, size, content, x);
        let i = choose|i: int|
            0 <= i < plan.extents@.len() && (#[trigger] plan.extents@[i]).0 == x
                && plan.extents@[i].1@ == extent_at(s, x)->0;
        assert(es[i].0 == x && es[i].1@ == c);
        assert(covers_pos(es[i], pos as int));
        assert forall|j: int| 0 <= j < es.len() && covers_pos(#[trigger] es[j], pos as int) implies
            es[j].1@[pos - es[j].0] == c[pos - x] by {
            let y = es[j].0;
            assert(extent_at(s, y) is Some);
            if y < x {
                assert(y + content(extent_at(s, y)->0).len() <= x);
            } else if x < y {
                assert(x + content(extent_at(s, x)->0).len() <= y);
            }
        }
        lemma_byte_at(es, pos as int, c[pos - x]);
    }
    if forall|y: u64|
        (#[trigger] extent_at(s, y)) is Some ==> !(y <= pos < y + content(extent_at(s, y)->0).len()) {
        assert forall|i: int| 0 <= i < es.len() implies !covers_pos(#[trigger] es[i], pos as int) by {
            if covers_pos(es[i], pos as int) {
                assert(extent_at(s, es[i].0) is Some);
            }
        }
        lemma_byte_at(es, pos as int, 0);
    }
}

// ---------------------------------------------------------------------------
// Through the overlay
// ---------------------------------------------------------------------------

/// The extent that a file shows at an offset: the pending one, else the committed one.
pub open spec fn shown_at(s: Listing, ep: Epoch, ino: u64, x: u64) -> Option<Seq<u8>> {
    if ep@.extents.contains_key((ino, extent_key_of(x))) {
        Some(ep@.extents[(ino, extent_key_of(x))])
    } else {
        extent_at(s, x)
    }
}

/// A plan through the overlay names its window, and has for every position of the window in
/// the file the shown extent that covers it, where that is the last one at or before the
/// position; and it has every shown extent that starts in the window.
pub proof fn overlay_plan_has_what_covers<F: Fn(&[u8]) -> Option<Descriptor>>(
    f: F,
    s: Listing,
    ep: Epoch,
    ino: u64,
    plan: ReadPlan,
    offset: u64,
    len: u64,
    size: u64,
    pos: u64,
    x: u64,
)
    requires
        sorted(s),
        plan_over(f, s, ep, ino, plan, offset, len, size),
        offset <= pos < offset + len,
        pos < size,
        x <= pos,
        shown_at(s, ep, ino, x) is Some,
        forall|y: u64| x < y <= pos ==> #[trigger] shown_at(s, ep, ino, y) is None,
        x >= offset || (decoded(f, shown_at(s, ep, ino, x)->0) matches Some(d) && x + d.len > pos),
    ensures
        plan.offset == offset,
        held_chunk(plan.extents@, x) == shown_at(s, ep, ino, x),
{
    let from = choose|from: u64| #[trigger]
        crate::read_plan::scan_from(s, offset, from) && plan.from
            == crate::read_epoch::pulled_back(f, ep, ino, offset, from);
    lemma_at_or_below(s, offset);
    assert(from <= offset);
    if exists|p: u64| #[trigger] covers_offset(f, ep, ino, offset, p) {
        let p = choose|p: u64| #[trigger] covers_offset(f, ep, ino, offset, p);
        assert(plan.from <= p || plan.from <= from);
    }
    assert(plan.from <= from);
    if x < plan.from {
        if at_or_below(s, extent_key_of(offset)) is Some {
            assert(extent_at(s, from) is Some);
            assert(shown_at(s, ep, ino, from) is Some);
        } else {
            assert(from == offset);
            assert(extent_at(s, x) is None);
            assert(pending_at(ep, ino, 0, offset + 1, x) == shown_at(s, ep, ino, x));
            assert(last_pending(ep, ino, offset, x)) by {
                assert forall|q: u64| x < q && q <= offset implies #[trigger] pending_at(
                    ep,
                    ino,
                    0,
                    offset + 1,
                    q,
                ) is None by {
                    assert(shown_at(s, ep, ino, q) is None);
                }
            }
            assert(covers_offset(f, ep, ino, offset, x));
            let p = choose|p: u64| #[trigger] covers_offset(f, ep, ino, offset, p);
            if p < x {
                assert(pending_at(ep, ino, 0, offset + 1, x) is None);
            } else if x < p {
                assert(pending_at(ep, ino, 0, offset + 1, p) is None);
            }
        }
    }
    assert(pending_at(ep, ino, plan.from, plan.end as int, x) == if ep@.extents.contains_key(
        (ino, extent_key_of(x)),
    ) {
        Some(ep@.extents[(ino, extent_key_of(x))])
    } else {
        None
    });
}

/// What a plan through the overlay holds, the file shows.
pub proof fn overlay_plan_has_nothing_else<F: Fn(&[u8]) -> Option<Descriptor>>(
    f: F,
    s: Listing,
    ep: Epoch,
    ino: u64,
    plan: ReadPlan,
    offset: u64,
    len: u64,
    size: u64,
    x: u64,
)
    requires
        plan_over(f, s, ep, ino, plan, offset, len, size),
        held_chunk(plan.extents@, x) is Some,
    ensures
        held_chunk(plan.extents@, x) == shown_at(s, ep, ino, x),
        offset <= size ==> x < size && x < offset + len,
{
    assert(pending_at(ep, ino, plan.from, plan.end as int, x) is Some ==> ep@.extents.contains_key(
        (ino, extent_key_of(x)),
    ));
}

} // verus!
