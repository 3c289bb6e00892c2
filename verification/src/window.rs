//! Byte windows of files: clipping reads, assembling them from extents, and
//! composing the chunks that a write changes.

use vstd::prelude::*;

use crate::io::written;

verus! {

// ---------------------------------------------------------------------------
// Reads
// ---------------------------------------------------------------------------

/// An extent in memory: where it starts, and its bytes.
pub type Extent = (u64, Vec<u8>);

/// The byte of the extents at a position: of the last extent that covers it, else
/// zero.
pub open spec fn byte_at(es: Seq<Extent>, pos: int) -> u8
    decreases es.len(),
{
    if es.len() == 0 {
        0
    } else if covers_pos(es.last(), pos) {
        es.last().1@[pos - es.last().0]
    } else {
        byte_at(es.drop_last(), pos)
    }
}

/// The extent covers the position.
pub open spec fn covers_pos(e: Extent, pos: int) -> bool {
    e.0 <= pos < e.0 + e.1@.len()
}

/// The window `[offset, offset + avail)` of the extents, up to `end`.
pub open spec fn window_of(es: Seq<Extent>, offset: u64, end: u64, avail: nat) -> Seq<u8> {
    Seq::new(
        avail,
        |k: int|
            if offset + k < end {
                byte_at(es, offset + k)
            } else {
                0u8
            },
    )
}

/// How many bytes a read gives: it stops at the end of the file.
pub open spec fn clipped(size: u64, offset: u64, len: u64) -> int {
    if offset >= size {
        0
    } else if size - offset < len {
        size - offset
    } else {
        len as int
    }
}

/// How many bytes a read gives, and where it ends: a read stops at the end of the
/// file.
pub fn clip_read(size: u64, offset: u64, len: u64) -> (r: (u64, u64))
    ensures
        r.0 == clipped(size, offset, len),
        offset + r.0 <= u64::MAX,
        r.1 == offset + r.0,
        r.0 <= len,
        offset + r.0 <= size || r.0 == 0,
{
    let left: u64 = if offset >= size {
        0
    } else {
        size - offset
    };
    let avail: u64 = if left < len {
        left
    } else {
        len
    };
    (avail, offset + avail)
}

/// Copy one extent's part of the window into `out`.
pub fn assemble_extent_window(out: &mut Vec<u8>, start: u64, chunk: &Vec<u8>, offset: u64, end: u64)
    ensures
        final(out)@.len() == old(out)@.len(),
        forall|k: int|
            0 <= k < old(out)@.len() ==> #[trigger] final(out)@[k] == if start <= offset + k < start
                + chunk@.len() && offset + k < end {
                chunk@[offset + k - start]
            } else {
                old(out)@[k]
            },
{
    let ghost was = out@;
    let mut i: usize = 0;
    while i < out.len()
        invariant
            i <= out@.len(),
            out@.len() == was.len(),
            was == old(out)@,
            forall|k: int|
                0 <= k < was.len() ==> #[trigger] out@[k] == if k < i && start <= offset + k < start
                    + chunk@.len() && offset + k < end {
                    chunk@[offset + k - start]
                } else {
                    was[k]
                },
        decreases out@.len() - i,
    {
        if i as u64 > u64::MAX - offset {
            return;
        }
        let pos: u64 = offset + i as u64;
        if pos >= end {
            return;
        }
        if pos >= start && pos - start < chunk.len() as u64 {
            let b: u8 = chunk[(pos - start) as usize];
            out.set(i, b);
        }
        i += 1;
    }
}

fn zeroed(n: usize) -> (r: Vec<u8>)
    ensures
        r@ == Seq::new(n as nat, |k: int| 0u8),
{
    let mut out: Vec<u8> = Vec::new();
    let mut i: usize = 0;
    while i < n
        invariant
            i <= n,
            out@ == Seq::new(i as nat, |k: int| 0u8),
        decreases n - i,
    {
        out.push(0);
        assert(out@ =~= Seq::new((i + 1) as nat, |k: int| 0u8));
        i += 1;
    }
    out
}

/// Assemble a read from decoded extents: zeros where none lies.
pub fn materialize_decode(extents: &Vec<Extent>, offset: u64, end: u64, avail: usize) -> (r: Vec<u8>)
    ensures
        r@ == window_of(extents@, offset, end, avail as nat),
{
    let mut out = zeroed(avail);
    let ghost es = extents@;
    let mut i: usize = 0;
    assert(es.take(0) =~= Seq::empty());
    assert(out@ =~= window_of(es.take(0), offset, end, avail as nat));
    while i < extents.len()
        invariant
            i <= extents@.len(),
            es == extents@,
            out@ == window_of(es.take(i as int), offset, end, avail as nat),
        decreases extents@.len() - i,
    {
        let ghost had = out@;
        assemble_extent_window(&mut out, extents[i].0, &extents[i].1, offset, end);
        proof {
            let n = es.take(i + 1);
            assert(n.drop_last() =~= es.take(i as int));
            assert(n.last() == es[i as int]);
            assert forall|k: int| 0 <= k < avail implies out@[k] == window_of(
                n,
                offset,
                end,
                avail as nat,
            )[k] by {
                assert(had[k] == window_of(es.take(i as int), offset, end, avail as nat)[k]);
            }
            assert(out@ =~= window_of(n, offset, end, avail as nat));
        }
        i += 1;
    }
    assert(es.take(i as int) =~= es);
    out
}

/// No two extents cover one position.
pub open spec fn disjoint(es: Seq<Extent>) -> bool {
    forall|i: int, j: int, pos: int|
        #![trigger covers_pos(es[i], pos), covers_pos(es[j], pos)]
        0 <= i < es.len() && 0 <= j < es.len() && covers_pos(es[i], pos) && covers_pos(es[j], pos)
            ==> i == j
}

/// Of disjoint extents the order does not matter: a byte is that of the one extent
/// which covers it, and zero where none does.
pub proof fn assembly_order_is_irrelevant(es: Seq<Extent>, pos: int, i: int)
    requires
        disjoint(es),
    ensures
        0 <= i < es.len() && covers_pos(es[i], pos) ==> byte_at(es, pos) == es[i].1@[pos - es[i].0],
        (forall|j: int| 0 <= j < es.len() ==> !#[trigger] covers_pos(es[j], pos)) ==> byte_at(
            es,
            pos,
        ) == 0,
    decreases es.len(),
{
    if es.len() > 0 {
        let d = es.drop_last();
        assert(disjoint(d)) by {
            assert forall|a: int, b: int, q: int|
                #![trigger covers_pos(d[a], q), covers_pos(d[b], q)]
                0 <= a < d.len() && 0 <= b < d.len() && covers_pos(d[a], q) && covers_pos(d[b], q) implies a
                == b by {
                assert(d[a] == es[a] && d[b] == es[b]);
            }
        }
        assembly_order_is_irrelevant(d, pos, i);
        assert(es.last() == es[es.len() - 1]);
        if 0 <= i < es.len() && covers_pos(es[i], pos) && i < es.len() - 1 {
            assert(d[i] == es[i]);
            if covers_pos(es.last(), pos) {
                assert(covers_pos(es[es.len() - 1], pos));
            }
        }
        if forall|j: int| 0 <= j < es.len() ==> !#[trigger] covers_pos(es[j], pos) {
            assert(!covers_pos(es[es.len() - 1], pos));
            assert forall|j: int| 0 <= j < d.len() implies !#[trigger] covers_pos(d[j], pos) by {
                assert(!covers_pos(es[j], pos));
            }
        }
    }
}

/// The run of items that worker `w` of `workers` decodes.
pub fn run_bounds(w: usize, n: usize, workers: usize) -> (r: (usize, usize))
    requires
        workers > 0,
        w < workers,
        workers <= n,
        n * workers <= usize::MAX,
    ensures
        r.0 == (w * n) / (workers as int),
        r.1 == ((w + 1) * n) / (workers as int),
        r.0 < r.1 <= n,
{
    assert(w * n <= n * workers) by (nonlinear_arith)
        requires
            w < workers,
    ;
    assert((w + 1) * n <= n * workers) by (nonlinear_arith)
        requires
            w < workers,
    ;
    let lo: usize = w * n / workers;
    let hi: usize = (w + 1) * n / workers;
    assert((w * n) / (workers as int) < ((w + 1) * n) / (workers as int)) by (nonlinear_arith)
        requires
            0 < workers <= n,
    ;
    assert(((w + 1) * n) / (workers as int) <= n) by (nonlinear_arith)
        requires
            (w + 1) * n <= n * workers,
            workers > 0,
    ;
    (lo, hi)
}

/// The runs tile the items: with each starting where the one before ends, the first
/// starts at the first item and the last ends at the last.
pub proof fn runs_tile(n: nat, workers: nat)
    requires
        0 < workers <= n,
    ensures
        (0 * n) / workers == 0,
        (workers * n) / workers == n,
{
    assert((workers * n) / workers == n) by (nonlinear_arith)
        requires
            workers > 0,
    ;
}

// ---------------------------------------------------------------------------
// Writes
// ---------------------------------------------------------------------------

/// One chunk that a write changes.
#[derive(Debug, Clone, Copy, PartialEq, Eq)]
pub struct WriteChunk {
    /// Where the chunk starts.
    pub chunk_off: u64,
    /// The part of the write that falls into it, as positions in the file.
    pub in_start: u64,
    pub in_end: u64,
    /// How much of the old content has to be read.
    pub read_len: u64,
    /// The length of the chunk after the write: chunks end at the end of the file.
    pub chunk_len: u64,
}

/// The size of a file after a write.
pub open spec fn size_after(old_size: u64, end: u64) -> u64 {
    if end > old_size {
        end
    } else {
        old_size
    }
}

/// The part of a write that falls into the chunk at `chunk_off`.
pub open spec fn chunk_of_write(
    class: u64,
    chunk_off: u64,
    offset: u64,
    end: u64,
    old_size: u64,
) -> WriteChunk {
    let top = chunk_off + class;
    let in_start = if offset > chunk_off {
        offset
    } else {
        chunk_off
    };
    let in_end = if end < top {
        end
    } else {
        top as u64
    };
    let full = in_start == chunk_off && in_end == top;
    let read_end = if old_size < top {
        old_size as int
    } else {
        top
    };
    let new_size = size_after(old_size, end);
    WriteChunk {
        chunk_off,
        in_start,
        in_end,
        read_len: if full || read_end <= chunk_off {
            0
        } else {
            (read_end - chunk_off) as u64
        },
        chunk_len: if new_size < top {
            (new_size - chunk_off) as u64
        } else {
            class
        },
    }
}

/// The chunks that a write changes, from the first to the last; nothing where the
/// last would lie beyond the reach of a position.
pub fn plan_write(class: u64, offset: u64, len: u64, old_size: u64) -> (r: Option<
    (Vec<WriteChunk>, u64),
>)
    requires
        class > 0,
        len > 0,
    ensures
        match r {
            Some(o) => {
                let end = (offset + len) as u64;
                let first = offset / class;
                &&& offset + len <= u64::MAX
                &&& o.1 == size_after(old_size, end)
                &&& forall|i: int|
                    0 <= i < o.0@.len() ==> #[trigger] o.0@[i] == chunk_of_write(
                        class,
                        ((first + i) * class) as u64,
                        offset,
                        end,
                        old_size,
                    ) && (first + i) * class + class <= u64::MAX
                &&& o.0@.len() >= 1
                &&& (first + o.0@.len()) * class >= end
                &&& (first + o.0@.len() - 1) * class < end
                &&& o.0@.len() == (end + class - 1) / (class as int) - first
            },
            None => offset + len + class > u64::MAX + 1,
        },
{
    if len > u64::MAX - offset || class - 1 > u64::MAX - offset - len {
        return None;
    }
    let end: u64 = offset + len;
    let first: u64 = offset / class;
    let new_size: u64 = if end > old_size {
        end
    } else {
        old_size
    };
    let mut out: Vec<WriteChunk> = Vec::new();
    let ghost f = first as int;
    proof {
        assert(first * class <= offset && offset < first * class + class) by (nonlinear_arith)
            requires
                first == offset / class,
                class > 0,
        ;
    }
    let mut chunk_off: u64 = first * class;
    proof {
        assert((f + 0) * class == first * class) by (nonlinear_arith)
            requires
                f == first,
        ;
    }
    while chunk_off < end
        invariant
            class > 0,
            end == offset + len,
            len > 0,
            end + class <= u64::MAX + 1,
            f == first,
            first == offset / class,
            new_size == size_after(old_size, end),
            chunk_off == (f + out@.len()) * class,
            chunk_off < end + class,
            chunk_off + class > offset,
            out@.len() > 0 || chunk_off <= offset,
            out@.len() > 0 ==> (f + out@.len() - 1) * class < end,
            forall|i: int|
                0 <= i < out@.len() ==> #[trigger] out@[i] == chunk_of_write(
                    class,
                    ((f + i) * class) as u64,
                    offset,
                    end,
                    old_size,
                ) && (f + i) * class + class <= u64::MAX,
        decreases end + class - chunk_off,
    {
        let top: u64 = chunk_off + class;
        let in_start: u64 = if offset > chunk_off {
            offset
        } else {
            chunk_off
        };
        let in_end: u64 = if end < top {
            end
        } else {
            top
        };
        let full = in_start == chunk_off && in_end == top;
        let read_end: u64 = if old_size < top {
            old_size
        } else {
            top
        };
        let read_len: u64 = if full || read_end <= chunk_off {
            0
        } else {
            read_end - chunk_off
        };
        let chunk_len: u64 = if new_size < top {
            new_size - chunk_off
        } else {
            class
        };
        let ghost n = out@.len() as int;
        out.push(WriteChunk { chunk_off, in_start, in_end, read_len, chunk_len });
        proof {
            assert((f + n + 1) * class == (f + n) * class + class) by (nonlinear_arith);
        }
        chunk_off = top;
    }
    proof {
        let q = f + out@.len();
        assert(q * class <= end + class - 1 && end + class - 1 < q * class + class) by (nonlinear_arith)
            requires
                q * class >= end,
                (q - 1) * class < end,
                class > 0,
        ;
        vstd::arithmetic::div_mod::lemma_fundamental_div_mod_converse(
            end + class - 1,
            class as int,
            q,
            end + class - 1 - q * class,
        );
    }
    Some((out, new_size))
}

/// Compose the chunk after the write: the written bytes over the old content.
///
/// `old` is what the file held of the chunk, as far as it reached.
pub fn compose_chunk(c: &WriteChunk, offset: u64, data: &[u8], old: &[u8]) -> (r: Vec<u8>)
    requires
        c.chunk_off + c.chunk_len <= u64::MAX,
        c.chunk_len <= usize::MAX,
        c.in_start >= offset,
        c.in_end <= offset + data@.len(),
    ensures
        r@ == Seq::new(
            c.chunk_len as nat,
            |k: int|
                if c.in_start <= c.chunk_off + k < c.in_end {
                    data@[c.chunk_off + k - offset]
                } else if k < old@.len() {
                    old@[k]
                } else {
                    0u8
                },
        ),
{
    let mut out: Vec<u8> = Vec::new();
    let n: usize = c.chunk_len as usize;
    let mut k: usize = 0;
    let ghost want = Seq::new(
        c.chunk_len as nat,
        |k: int|
            if c.in_start <= c.chunk_off + k < c.in_end {
                data@[c.chunk_off + k - offset]
            } else if k < old@.len() {
                old@[k]
            } else {
                0u8
            },
    );
    while k < n
        invariant
            n == c.chunk_len,
            k <= n,
            c.chunk_off + c.chunk_len <= u64::MAX,
            c.in_start >= offset,
            c.in_end <= offset + data@.len(),
            want == Seq::new(
                c.chunk_len as nat,
                |k: int|
                    if c.in_start <= c.chunk_off + k < c.in_end {
                        data@[c.chunk_off + k - offset]
                    } else if k < old@.len() {
                        old@[k]
                    } else {
                        0u8
                    },
            ),
            out@ == want.take(k as int),
        decreases n - k,
    {
        let pos: u64 = c.chunk_off + k as u64;
        let b: u8 = if c.in_start <= pos && pos < c.in_end {
            data[(pos - offset) as usize]
        } else if k < old.len() {
            old[k]
        } else {
            0
        };
        out.push(b);
        assert(b == want[k as int]);
        assert(out@ =~= want.take(k + 1));
        k += 1;
    }
    assert(want.take(k as int) =~= want);
    out
}

/// A composed chunk is that part of the file as the write leaves it, whatever the
/// file held before.
pub proof fn composed_chunk_is_written_file(
    file: Seq<u8>,
    class: u64,
    chunk_off: u64,
    offset: u64,
    data: Seq<u8>,
    chunk: Seq<u8>,
    old: Seq<u8>,
)
    requires
        class > 0,
        data.len() > 0,
        file.len() <= u64::MAX,
        offset + data.len() <= u64::MAX,
        chunk_off + class <= u64::MAX,
        chunk_off < offset + data.len(),
        offset < chunk_off + class,
        ({
            let c = chunk_of_write(
                class,
                chunk_off,
                offset,
                (offset + data.len()) as u64,
                file.len() as u64,
            );
            &&& old.len() == c.read_len
            &&& forall|k: int| 0 <= k < old.len() ==> #[trigger] old[k] == file[chunk_off + k]
            &&& chunk == Seq::new(
                c.chunk_len as nat,
                |k: int|
                    if c.in_start <= c.chunk_off + k < c.in_end {
                        data[c.chunk_off + k - offset]
                    } else if k < old.len() {
                        old[k]
                    } else {
                        0u8
                    },
            )
        }),
    ensures
        ({
            let after = written(file, offset as nat, data);
            chunk == after.subrange(
                chunk_off as int,
                if chunk_off + class < after.len() {
                    chunk_off + class
                } else {
                    after.len() as int
                },
            )
        }),
{
    let after = written(file, offset as nat, data);
    let top = if chunk_off + class < after.len() {
        chunk_off + class
    } else {
        after.len() as int
    };
    assert(chunk =~= after.subrange(chunk_off as int, top));
}

/// What stays of an extent that reaches over `new_size`.
pub open spec fn trim_at(start: u64, len: u64, new_size: u64) -> Option<u64> {
    if start < new_size && new_size < start + len {
        Some((new_size - start) as u64)
    } else {
        None
    }
}

/// How much of an extent stays when a file is cut to `new_size`: nothing is said
/// where the extent ends before, or starts at or after it.
pub fn plan_trim(start: u64, len: u64, new_size: u64) -> (r: Option<u64>)
    ensures
        r == trim_at(start, len, new_size),
{
    if start < new_size && new_size - start < len {
        Some(new_size - start)
    } else {
        None
    }
}

/// What a hole punch comes to.
#[derive(Debug, Clone, Copy, PartialEq, Eq)]
pub enum Punch {
    /// Cut the file off.
    Truncate { size: u64 },
    /// Write zeros.
    Zero { start: u64, len: u64 },
    /// Nothing to do.
    Nothing,
}

/// What a hole punch comes to in a file of this size.
pub open spec fn punch_of(size: u64, start: u64, end: u64, keep_size: bool) -> Punch {
    if !keep_size && end >= size {
        Punch::Truncate { size: start }
    } else {
        let stop = if end < size {
            end
        } else {
            size
        };
        if stop > start {
            Punch::Zero { start, len: (stop - start) as u64 }
        } else {
            Punch::Nothing
        }
    }
}

/// Decide a hole punch: where it reaches the end of the file and the size may
/// change, the file is truncated; else the range is zeroed, up to the end.
pub fn plan_punch(size: u64, start: u64, end: u64, keep_size: bool) -> (r: Punch)
    ensures
        r == punch_of(size, start, end, keep_size),
{
    if !keep_size && end >= size {
        return Punch::Truncate { size: start };
    }
    let stop: u64 = if end < size {
        end
    } else {
        size
    };
    if stop > start {
        Punch::Zero { start, len: stop - start }
    } else {
        Punch::Nothing
    }
}

// ---------------------------------------------------------------------------
// Batches of writes
// ---------------------------------------------------------------------------

/// A region to write: where, and what.
pub type Region = (u64, Vec<u8>);

/// The file after the regions, in order.
pub open spec fn regions_written(file: Seq<u8>, rs: Seq<Region>) -> Seq<u8>
    decreases rs.len(),
{
    if rs.len() == 0 {
        file
    } else {
        let before = regions_written(file, rs.drop_last());
        if rs.last().1@.len() == 0 {
            before
        } else {
            written(before, rs.last().0 as nat, rs.last().1@)
        }
    }
}

/// In the order of their offsets.
pub open spec fn by_offset(rs: Seq<Region>) -> bool {
    forall|i: int, j: int| #![trigger rs[i], rs[j]] 0 <= i < j < rs.len() ==> rs[i].0 <= rs[j].0
}

/// The regions of one offset, in order.
pub open spec fn of_offset(rs: Seq<Region>, o: u64) -> Seq<Region> {
    rs.filter(starts_at(o))
}

/// The regions that start at an offset.
pub open spec fn starts_at(o: u64) -> spec_fn(Region) -> bool {
    |e: Region| e.0 == o
}

proof fn lemma_filter_none(s: Seq<Region>, p: spec_fn(Region) -> bool)
    requires
        forall|j: int| 0 <= j < s.len() ==> !p(#[trigger] s[j]),
    ensures
        s.filter(p).len() == 0,
    decreases s.len(),
{
    reveal(Seq::filter);
    if s.len() > 0 {
        let d = s.drop_last();
        assert forall|j: int| 0 <= j < d.len() implies !p(#[trigger] d[j]) by {
            assert(d[j] == s[j]);
        }
        lemma_filter_none(d, p);
    }
}

proof fn lemma_placed_region(rs: Seq<Region>, at: int, x: Region, o: u64)
    requires
        0 <= at <= rs.len(),
        forall|j: int| at <= j < rs.len() ==> (#[trigger] rs[j]).0 > x.0,
    ensures
        of_offset(rs.insert(at, x), o) == if x.0 == o {
            of_offset(rs, o).push(x)
        } else {
            of_offset(rs, o)
        },
{
    let p = starts_at(o);
    let a = rs.take(at);
    let b = rs.skip(at);
    let m = seq![x];
    assert(rs =~= a + b);
    assert(rs.insert(at, x) =~= a + m + b);
    Seq::filter_distributes_over_add(a, b, p);
    Seq::filter_distributes_over_add(a + m, b, p);
    Seq::filter_distributes_over_add(a, m, p);
    assert(m.drop_last() =~= Seq::<Region>::empty());
    assert(m.filter(p) =~= if x.0 == o {
        m
    } else {
        Seq::<Region>::empty()
    }) by {
        reveal(Seq::filter);
        assert(m.drop_last().filter(p) =~= Seq::<Region>::empty());
    }
    if x.0 == o {
        assert(b.filter(p) =~= Seq::<Region>::empty()) by {
            lemma_filter_none(b, p);
        }
    }
}

/// Sort the regions of a batch by offset; regions of one offset keep their order.
pub fn sort_regions(writes: Vec<Region>) -> (r: Vec<Region>)
    ensures
        by_offset(r@),
        forall|o: u64| #[trigger] of_offset(r@, o) == of_offset(writes@, o),
{
    let mut rest = writes;
    let mut out: Vec<Region> = Vec::new();
    let ghost all = writes@;
    let ghost mut done: int = 0;
    assert(all.take(0) =~= Seq::empty());
    assert(all.skip(0) =~= all);
    while rest.len() > 0
        invariant
            by_offset(out@),
            0 <= done <= all.len(),
            rest@ == all.skip(done),
            forall|o: u64| #[trigger] of_offset(out@, o) == of_offset(all.take(done), o),
        decreases rest@.len(),
    {
        let ghost o0 = out@;
        let x = rest.remove(0);
        let mut at: usize = out.len();
        while at > 0 && out[at - 1].0 > x.0
            invariant
                at <= out@.len(),
                out@ == o0,
                by_offset(o0),
                forall|j: int| at <= j < o0.len() ==> (#[trigger] o0[j]).0 > x.0,
            decreases at,
        {
            at = at - 1;
        }
        let ghost y = x;
        out.insert(at, x);
        proof {
            let n = out@;
            assert(y == all[done]);
            assert(n =~= o0.insert(at as int, y));
            assert forall|i: int, j: int|
                #![trigger n[i], n[j]]
                0 <= i < j < n.len() implies n[i].0 <= n[j].0 by {
                let a = if i < at { i } else { i - 1 };
                let b = if j < at { j } else { j - 1 };
                if i != at && j != at {
                    assert(n[i] == o0[a] && n[j] == o0[b]);
                } else if j == at {
                    assert(n[i] == o0[i]);
                    if i < at - 1 {
                        assert(o0[i].0 <= o0[at - 1].0);
                    }
                } else {
                    assert(n[j] == o0[j - 1]);
                }
            }
            let before = all.take(done);
            let after = all.take(done + 1);
            assert(before.insert(done, y) =~= after);
            assert forall|o: u64| #[trigger] of_offset(n, o) == of_offset(after, o) by {
                lemma_placed_region(o0, at as int, y, o);
                lemma_placed_region(before, done, y, o);
                assert(of_offset(o0, o) == of_offset(before, o));
            }
            assert(rest@ =~= all.skip(done + 1));
            done = done + 1;
        }
    }
    assert(all.take(done) =~= all);
    out
}

} // verus!
