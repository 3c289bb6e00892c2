//! Laws of paths, numbers and totals: how paths are put together and followed, which directory
//! contains an inode, which number is free, and what the files sum up to.

use vstd::prelude::*;

use crate::descriptor::Descriptor;
use crate::extents::has_file;
use crate::fs::{entry_at, Listing, Namespace};
use crate::name_laws::named;
use crate::namespace::{bad_byte, has_dir, valid_name};
use crate::paths::{components, components_of, is_component, lists_child, parent_is, parents,
    pieces, tops, walk};
use crate::sorted::{has_key, lemma_rank, rank, sorted};
use crate::totals::{described_len, extents_len, files_len};

verus! {

// ---------------------------------------------------------------------------
// Paths
// ---------------------------------------------------------------------------

/// The pieces of a path behind a slash follow those before it.
proof fn lemma_pieces_join(p: Seq<u8>, q: Seq<u8>)
    ensures
        pieces(p + seq![0x2fu8] + q) == pieces(p) + pieces(q),
        pieces(q).len() > 0,
    decreases q.len(),
{
    let w = p + seq![0x2fu8] + q;
    lemma_pieces_some(p);
    if q.len() == 0 {
        assert(w.drop_last() =~= p);
        assert(pieces(w) =~= pieces(p) + pieces(q));
    } else {
        lemma_pieces_join(p, q.drop_last());
        assert(w.drop_last() =~= p + seq![0x2fu8] + q.drop_last());
        assert(w.last() == q.last());
        let a = pieces(p);
        let b = pieces(q.drop_last());
        assert((a + b).last() == b.last());
        assert((a + b).drop_last() =~= a + b.drop_last());
        assert(pieces(w) =~= a + pieces(q));
    }
}

proof fn lemma_pieces_some(p: Seq<u8>)
    ensures
        pieces(p).len() > 0,
    decreases p.len(),
{
    if p.len() > 0 {
        lemma_pieces_some(p.drop_last());
    }
}

proof fn lemma_components_join(a: Seq<Seq<u8>>, b: Seq<Seq<u8>>)
    ensures
        components_of(a + b) == components_of(a) + components_of(b),
    decreases b.len(),
{
    if b.len() == 0 {
        assert(a + b =~= a);
        assert(components_of(a) + components_of(b) =~= components_of(a));
    } else {
        lemma_components_join(a, b.drop_last());
        assert((a + b).drop_last() =~= a + b.drop_last());
        assert((a + b).last() == b.last());
        assert(components_of(a + b) =~= components_of(a) + components_of(b));
    }
}

/// The components of a path are those before a slash, and then those behind it.
pub proof fn components_join(p: Seq<u8>, q: Seq<u8>)
    ensures
        components(p + seq![0x2fu8] + q) == components(p) + components(q),
{
    lemma_pieces_join(p, q);
    lemma_components_join(pieces(p), pieces(q));
}

proof fn lemma_one_piece(name: Seq<u8>)
    requires
        !name.contains(0x2fu8),
    ensures
        pieces(name) == seq![name],
    decreases name.len(),
{
    if name.len() == 0 {
        assert(name =~= Seq::empty());
    } else {
        let p = name.drop_last();
        assert(!p.contains(0x2fu8)) by {
            if p.contains(0x2fu8) {
                let i = choose|i: int| 0 <= i < p.len() && p[i] == 0x2fu8;
                assert(name[i] == 0x2fu8);
            }
        }
        lemma_one_piece(p);
        assert(name[name.len() - 1] != 0x2fu8);
        assert(p.push(name.last()) =~= name);
        assert(seq![p].last() == p);
        assert(seq![p].drop_last() =~= Seq::empty());
        assert(pieces(name) =~= seq![name]);
    }
}

/// A valid name is one component, itself; nothing and the dot are none.
pub proof fn name_is_one_component(name: Seq<u8>)
    ensures
        valid_name(name) ==> components(name) == seq![name],
        components(Seq::empty()) == Seq::<Seq<u8>>::empty(),
        components(seq![0x2eu8]) == Seq::<Seq<u8>>::empty(),
{
    let none = Seq::<Seq<u8>>::empty();
    if valid_name(name) {
        assert(!name.contains(0x2fu8)) by {
            if name.contains(0x2fu8) {
                let i = choose|i: int| 0 <= i < name.len() && name[i] == 0x2fu8;
                assert(bad_byte(name[i]));
            }
        }
        lemma_one_piece(name);
        lemma_one_component(name);
    }
    lemma_one_piece(Seq::empty());
    lemma_one_component(Seq::empty());
    let dot = seq![0x2eu8];
    assert(!dot.contains(0x2fu8)) by {
        assert(dot[0] == 0x2eu8);
    }
    lemma_one_piece(dot);
    lemma_one_component(dot);
}

proof fn lemma_one_component(p: Seq<u8>)
    ensures
        components_of(seq![p]) == if is_component(p) {
            seq![p]
        } else {
            Seq::empty()
        },
{
    assert(seq![p].drop_last() =~= Seq::empty());
    assert(seq![p].last() == p);
    assert(components_of(Seq::<Seq<u8>>::empty()) == Seq::<Seq<u8>>::empty());
    assert(Seq::<Seq<u8>>::empty().push(p) =~= seq![p]);
}

/// A path is followed name by name: the whole leads where its rest leads from where its
/// front leads.
pub proof fn walk_goes_on(n: Namespace, ino: u64, a: Seq<Seq<u8>>, b: Seq<Seq<u8>>)
    ensures
        walk(n, ino, a + b) == match walk(n, ino, a) {
            Some(Some(i)) => walk(n, i, b),
            o => o,
        },
    decreases a.len(),
{
    if a.len() == 0 {
        assert(a + b =~= b);
    } else {
        assert((a + b)[0] == a[0]);
        assert((a + b).drop_first() =~= a.drop_first() + b);
        if has_dir(n, ino) {
            if let Some(e) = entry_at(n[ino].entries, a[0]) {
                walk_goes_on(n, e.ino, a.drop_first(), b);
            }
        }
    }
}

/// One name leads from a directory to what it stands for there, and nowhere where it stands
/// for nothing; no name leads out of what is no directory, and none is looked up for the
/// empty path.
pub proof fn walk_takes_names(n: Namespace, dir: u64, name: Seq<u8>, ino: u64)
    ensures
        walk(n, dir, Seq::empty()) == Some(Some(dir)),
        named(n, dir, name, ino) && valid_name(name) ==> walk(n, dir, seq![name]) == Some(
            Some(ino),
        ),
        has_dir(n, dir) && valid_name(name) && entry_at(n[dir].entries, name) is None ==> walk(
            n,
            dir,
            seq![name],
        ) == Some(None::<u64>),
        !has_dir(n, dir) ==> walk(n, dir, seq![name]) is None,
        walk(n, dir, seq![seq![0x2eu8, 0x2eu8]]) is None,
{
    reveal_with_fuel(walk, 2);
    assert(seq![name].drop_first() =~= Seq::empty());
    assert(seq![name][0] == name);
    assert(seq![seq![0x2eu8, 0x2eu8]][0] == seq![0x2eu8, 0x2eu8]);
    if valid_name(name) {
        assert(name != seq![0x2eu8, 0x2eu8]);
    }
}

/// The parent of an inode with one name is the directory of that name; of one with several,
/// a directory of one of them, and none with a lower number. Without a name it is the root
/// directory, which is its own parent.
pub proof fn parent_holds_a_name(n: Namespace, root_dir: u64, ino: u64, r: u64)
    requires
        parent_is(n, root_dir, ino, r),
        forall|d: u64| #[trigger] n.contains_key(d) ==> sorted(n[d].entries),
    ensures
        ino == root_dir ==> r == root_dir,
        ino != root_dir ==> forall|d: u64, q: Seq<u8>| #[trigger]
            named(n, d, q, ino) ==> r <= d && exists|p: Seq<u8>| #[trigger] named(n, r, p, ino),
        ino != root_dir && (forall|d: u64, q: Seq<u8>| !(#[trigger] named(n, d, q, ino))) ==> r
            == root_dir,
{
    if ino != root_dir {
        assert forall|d: u64, q: Seq<u8>| #[trigger] named(n, d, q, ino) implies r <= d && exists|
            p: Seq<u8>,
        | #[trigger] named(n, r, p, ino) by {
            let s = n[d].entries;
            assert(has_key(s, q));
            let k = rank(s, q);
            assert(crate::directory::parse_entry(s[k].1) matches Ok(e) && e.ino == ino);
            assert(lists_child(s, ino));
            assert(parents(n, d, ino));
            assert(parents(n, r, ino));
            lemma_child_named(n, r, ino);
        }
        if forall|d: u64, q: Seq<u8>| !(#[trigger] named(n, d, q, ino)) {
            if parents(n, r, ino) {
                lemma_child_named(n, r, ino);
            }
        }
    }
}

proof fn lemma_child_named(n: Namespace, d: u64, ino: u64)
    requires
        parents(n, d, ino),
        sorted(n[d].entries),
    ensures
        exists|p: Seq<u8>| #[trigger] named(n, d, p, ino),
{
    let s = n[d].entries;
    let i = choose|i: int|
        0 <= i < s.len() && (crate::directory::parse_entry((#[trigger] s[i]).1) matches Ok(e)
            && e.ino == ino);
    lemma_rank(s, s[i].0);
    assert(has_key(s, s[i].0));
    assert(named(n, d, s[i].0, ino));
}

/// The number behind the greatest in use is free, and greater than every number in use; it is
/// right behind one, or the second of all.
pub proof fn next_number_is_free(n: Namespace, top: u64, ino: u64)
    requires
        tops(n, top),
        top < u64::MAX,
        n.contains_key(ino),
    ensures
        !n.contains_key((top + 1) as u64),
        ino < top + 1,
        top + 1 == 2 || n.contains_key(top),
{
    if n.contains_key((top + 1) as u64) {
        assert((top + 1) as u64 <= top);
    }
}

// ---------------------------------------------------------------------------
// Totals
// ---------------------------------------------------------------------------

/// The logical bytes of extents, without a limit.
pub open spec fn sum_of<F: Fn(&[u8]) -> Option<Descriptor>>(f: F, s: Listing) -> nat
    decreases s.len(),
{
    if s.len() == 0 {
        0
    } else {
        described_len(f, s[0].1) as nat + sum_of(f, s.drop_first())
    }
}

/// The logical bytes of the files of these numbers, without a limit.
pub open spec fn files_sum<F: Fn(&[u8]) -> Option<Descriptor>>(f: F, n: Namespace, v: Seq<u64>) -> nat
    decreases v.len(),
{
    if v.len() == 0 {
        0
    } else {
        (if has_file(n, v[0]) {
            sum_of(f, n[v[0]].entries)
        } else {
            0
        }) + files_sum(f, n, v.drop_first())
    }
}

proof fn lemma_sum_last<F: Fn(&[u8]) -> Option<Descriptor>>(f: F, s: Listing)
    requires
        s.len() > 0,
    ensures
        sum_of(f, s) == sum_of(f, s.drop_last()) + described_len(f, s.last().1),
    decreases s.len(),
{
    let r = s.drop_first();
    let p = s.drop_last();
    if r.len() > 0 {
        lemma_sum_last(f, r);
        assert(p.drop_first() =~= r.drop_last());
        assert(p[0] == s[0]);
        assert(r.last() == s.last());
    } else {
        assert(sum_of(f, r) == 0 && sum_of(f, p) == 0);
        assert(s.last() == s[0]);
    }
}

proof fn lemma_files_last<F: Fn(&[u8]) -> Option<Descriptor>>(f: F, n: Namespace, v: Seq<u64>)
    requires
        v.len() > 0,
    ensures
        files_sum(f, n, v) == files_sum(f, n, v.drop_last()) + (if has_file(n, v.last()) {
            sum_of(f, n[v.last()].entries)
        } else {
            0
        }),
    decreases v.len(),
{
    let r = v.drop_first();
    let p = v.drop_last();
    if r.len() > 0 {
        lemma_files_last(f, n, r);
        assert(p.drop_first() =~= r.drop_last());
        assert(p[0] == v[0]);
        assert(r.last() == v.last());
    } else {
        assert(files_sum(f, n, r) == 0 && files_sum(f, n, p) == 0);
        assert(v.last() == v[0]);
    }
}

/// The logical length of a file's extents is the sum of their lengths, up to the largest
/// number.
pub proof fn extents_sum_up<F: Fn(&[u8]) -> Option<Descriptor>>(f: F, s: Listing, start: u64)
    ensures
        extents_len(f, s, start) == if start + sum_of(f, s) > u64::MAX {
            u64::MAX as int
        } else {
            start + sum_of(f, s)
        },
    decreases s.len(),
{
    if s.len() > 0 {
        extents_sum_up(f, s.drop_last(), start);
        lemma_sum_last(f, s);
    }
}

/// The logical length of the store is the sum over its files, each counted once, up to the
/// largest number; what is no file counts nothing.
pub proof fn files_sum_up<F: Fn(&[u8]) -> Option<Descriptor>>(f: F, n: Namespace, v: Seq<u64>)
    ensures
        files_len(f, n, v) == if files_sum(f, n, v) > u64::MAX {
            u64::MAX as int
        } else {
            files_sum(f, n, v) as int
        },
    decreases v.len(),
{
    if v.len() > 0 {
        files_sum_up(f, n, v.drop_last());
        lemma_files_last(f, n, v);
        if has_file(n, v.last()) {
            extents_sum_up(f, n[v.last()].entries, files_len(f, n, v.drop_last()));
        }
    }
}

} // verus!
